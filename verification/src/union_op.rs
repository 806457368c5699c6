//! The union operator: column-projecting union of named ancestors, or
//! shard-merge of a single logical ancestor, with the partial-replay
//! protocol that buffers per-key replay pieces until every ancestor has
//! contributed.

use vstd::prelude::*;

use crate::assoc::{assoc_get, distinct_keys, has_key, key_index, lemma_key_index_unique};
use crate::data::{
    batch_view, clone_record, clone_value, row_view, value_eq, NodeId, Record, RecordV, Value,
    ValueV,
};
use crate::render::{dec_str, dec_string, node_le, node_le_exec, node_str};

verus! {

/// Model of the emit policy: forward everything from one ancestor
/// (shard-merge), or project configured columns per named ancestor.
pub enum EmitView {
    AllFrom(NodeId),
    Project { emit: Seq<(NodeId, Seq<usize>)>, cols: Seq<(NodeId, usize)> },
}

enum Emit {
    AllFrom(NodeId),
    Project { emit: Vec<(NodeId, Vec<usize>)>, cols: Vec<(NodeId, usize)> },
}

/// The model of a per-ancestor column list table.
pub open spec fn emit_table_view(e: Seq<(NodeId, Vec<usize>)>) -> Seq<(NodeId, Seq<usize>)> {
    e.map_values(|p: (NodeId, Vec<usize>)| (p.0, p.1@))
}

impl View for Emit {
    type V = EmitView;

    closed spec fn view(&self) -> EmitView {
        match self {
            Emit::AllFrom(p) => EmitView::AllFrom(*p),
            Emit::Project { emit, cols } => EmitView::Project {
                emit: emit_table_view(emit@),
                cols: cols@,
            },
        }
    }
}

/// The model of one key's buffered pieces: ancestor to captured batch.
pub open spec fn inner_pieces_view(s: Seq<(NodeId, Vec<Record>)>) -> Seq<(NodeId, Seq<RecordV>)> {
    s.map_values(|q: (NodeId, Vec<Record>)| (q.0, batch_view(q.1@)))
}

/// The model of the replay buffer: key value to that key's buffered pieces.
pub open spec fn pieces_view(
    s: Seq<(Value, Vec<(NodeId, Vec<Record>)>)>,
) -> Seq<(ValueV, Seq<(NodeId, Seq<RecordV>)>)> {
    s.map_values(|p: (Value, Vec<(NodeId, Vec<Record>)>)| (p.0@, inner_pieces_view(p.1@)))
}

/// Mathematical model of the operator: the emit policy, the lazily
/// established replay key mapping (ancestor to its input key column), and the
/// replay buffer of in-flight, incomplete per-key refills.
pub struct UnionView {
    pub emit: EmitView,
    pub replay_key: Option<Seq<(NodeId, usize)>>,
    pub pieces: Seq<(ValueV, Seq<(NodeId, Seq<RecordV>)>)>,
}

/// A union of a set of views.
pub struct Union {
    emit: Emit,
    replay_key: Option<Vec<(NodeId, usize)>>,
    replay_pieces: Vec<(Value, Vec<(NodeId, Vec<Record>)>)>,
}

impl View for Union {
    type V = UnionView;

    closed spec fn view(&self) -> UnionView {
        UnionView {
            emit: self.emit@,
            replay_key: match self.replay_key {
                Option::None => Option::None,
                Option::Some(rk) => Option::Some(rk@),
            },
            pieces: pieces_view(self.replay_pieces@),
        }
    }
}

/// Whether a column list is strictly increasing: columns may be omitted,
/// never reordered.
pub open spec fn strictly_increasing(s: Seq<usize>) -> bool {
    forall|i: int, j: int| 0 <= i < j < s.len() ==> #[trigger] s[i] < #[trigger] s[j]
}

/// Whether every configured column index is inside the row.
pub open spec fn row_fits(row: Seq<ValueV>, cols: Seq<usize>) -> bool {
    forall|i: int| 0 <= i < cols.len() ==> (#[trigger] cols[i]) < row.len()
}

/// Whether every record of the batch fits the configured column list.
pub open spec fn batch_fits(rs: Seq<RecordV>, cols: Seq<usize>) -> bool {
    forall|i: int| 0 <= i < rs.len() ==> row_fits((#[trigger] rs[i]).row, cols)
}

/// Whether a batch from ancestor `from` can be put through the regular
/// transform: under a projecting union the ancestor must be configured and
/// every record must fit its column list; a shard-merge accepts anything.
pub open spec fn input_ok(e: EmitView, from: NodeId, rs: Seq<RecordV>) -> bool {
    match e {
        EmitView::AllFrom(_) => true,
        EmitView::Project { emit, .. } => has_key(emit, from) && batch_fits(
            rs,
            assoc_get(emit, from),
        ),
    }
}

/// The projection of one row: the selected columns, in their configured
/// order.
pub open spec fn project_row(row: Seq<ValueV>, cols: Seq<usize>) -> Seq<ValueV> {
    Seq::new(cols.len(), |i: int| row[cols[i] as int])
}

/// The regular transform of a whole batch: identity under shard-merge,
/// per-record projection under a projecting union.  Signs are preserved, and
/// so is the order of the records.
pub open spec fn transform_batch(e: EmitView, from: NodeId, rs: Seq<RecordV>) -> Seq<RecordV> {
    match e {
        EmitView::AllFrom(_) => rs,
        EmitView::Project { emit, .. } => rs.map_values(
            |r: RecordV| RecordV { pos: r.pos, row: project_row(r.row, assoc_get(emit, from)) },
        ),
    }
}

impl UnionView {
    /// Invariant of the emit policy: a projecting union names at least one
    /// ancestor, each exactly once, each with a strictly increasing column
    /// list; the cached field counts cover only configured ancestors.
    pub open spec fn emit_wf(self) -> bool {
        match self.emit {
            EmitView::AllFrom(_) => true,
            EmitView::Project { emit, cols } => emit.len() > 0 && distinct_keys(emit) && (forall|
                i: int,
            |
                0 <= i < emit.len() ==> strictly_increasing(
                    (#[trigger] emit[i]).1,
                )) && distinct_keys(cols) && (forall|i: int|
                0 <= i < cols.len() ==> has_key(emit, (#[trigger] cols[i]).0)),
        }
    }

    /// Invariant of the replay key: once established it maps each ancestor
    /// (each shard, for a shard-merge, starting with the first one heard
    /// from) to one of that ancestor's own input columns.
    pub open spec fn replay_key_wf(self) -> bool {
        match self.replay_key {
            Option::None => true,
            Option::Some(rk) => distinct_keys(rk) && match self.emit {
                EmitView::AllFrom(_) => rk.len() == 1,
                EmitView::Project { emit, .. } => rk.len() == emit.len() && forall|i: int|
                    0 <= i < rk.len() ==> (#[trigger] rk[i]).0 == emit[i].0 && emit[i].1.contains(
                        rk[i].1,
                    ),
            },
        }
    }

    /// Invariant of the replay buffer: at most one entry per key value, at
    /// most one piece per (key, ancestor) pair, no entry without a piece, no
    /// buffering before a replay key exists, and under a projecting union
    /// every buffered piece belongs to a configured ancestor and fits its
    /// column list.
    pub open spec fn pieces_wf(self) -> bool {
        distinct_keys(self.pieces) && (self.pieces.len() == 0 || self.replay_key is Some) && forall|
            i: int,
        |
            0 <= i < self.pieces.len() ==> {
                let inner = (#[trigger] self.pieces[i]).1;
                distinct_keys(inner) && inner.len() >= 1 && forall|j: int|
                    0 <= j < inner.len() ==> match self.emit {
                        EmitView::AllFrom(_) => true,
                        EmitView::Project { emit, .. } => has_key(emit, (#[trigger] inner[j]).0)
                            && batch_fits(inner[j].1, assoc_get(emit, inner[j].0)),
                    }
            }
    }

    /// Well-formedness of the whole operator.
    pub open spec fn wf(self) -> bool {
        self.emit_wf() && self.replay_key_wf() && self.pieces_wf()
    }
}

/// Position of the first pair keyed by `k` in a node-keyed table.
pub fn node_key_position<V>(v: &Vec<(NodeId, V)>, k: NodeId) -> (r: Option<usize>)
    ensures
        match r {
            Option::Some(i) => i < v@.len() && v@[i as int].0 == k,
            Option::None => forall|j: int| 0 <= j < v@.len() ==> (#[trigger] v@[j]).0 != k,
        },
{
    let mut i: usize = 0;
    while i < v.len()
        invariant
            i <= v@.len(),
            forall|j: int| 0 <= j < i ==> (#[trigger] v@[j]).0 != k,
        decreases v@.len() - i,
    {
        if v[i].0 == k {
            return Option::Some(i);
        }
        i = i + 1;
    }
    Option::None
}

/// Position of the first pair keyed by a value equal to `k` in the replay
/// buffer.
pub fn value_key_position(
    v: &Vec<(Value, Vec<(NodeId, Vec<Record>)>)>,
    k: &Value,
) -> (r: Option<usize>)
    ensures
        match r {
            Option::Some(i) => i < v@.len() && v@[i as int].0@ == k@,
            Option::None => forall|j: int| 0 <= j < v@.len() ==> (#[trigger] v@[j]).0@ != k@,
        },
{
    let mut i: usize = 0;
    while i < v.len()
        invariant
            i <= v@.len(),
            forall|j: int| 0 <= j < i ==> (#[trigger] v@[j]).0@ != k@,
        decreases v@.len() - i,
    {
        if value_eq(&v[i].0, k) {
            return Option::Some(i);
        }
        i = i + 1;
    }
    Option::None
}

/// Whether every column list of the table is strictly increasing.
pub open spec fn all_increasing(e: Seq<(NodeId, Seq<usize>)>) -> bool {
    forall|i: int| 0 <= i < e.len() ==> strictly_increasing((#[trigger] e[i]).1)
}

fn check_strictly_increasing(v: &Vec<usize>) -> (b: bool)
    ensures
        b == strictly_increasing(v@),
{
    let mut i: usize = 1;
    while i < v.len()
        invariant
            1 <= i,
            i <= v@.len() || v@.len() == 0,
            forall|p: int, q: int| 0 <= p < q < i && q < v@.len() ==> #[trigger] v@[p] < #[trigger] v@[q],
        decreases v@.len() - i,
    {
        if v[i - 1] >= v[i] {
            assert(!strictly_increasing(v@));
            return false;
        }
        assert(forall|p: int| 0 <= p < i ==> #[trigger] v@[p] <= v@[i - 1]) by {
            assert(forall|p: int| 0 <= p < i - 1 ==> #[trigger] v@[p] < v@[i - 1]);
        }
        i = i + 1;
    }
    true
}

/// The replay key mapping established on first replay-piece arrival for
/// output key column `key_col`: under shard-merge the arriving shard is
/// mapped to the key column itself; under a projecting union the output key
/// column is translated back into each ancestor's input column.
pub open spec fn replay_key_for(e: EmitView, from: NodeId, key_col: usize) -> Seq<
    (NodeId, usize),
> {
    match e {
        EmitView::AllFrom(_) => seq![(from, key_col)],
        EmitView::Project { emit, .. } => Seq::new(
            emit.len(),
            |i: int| (emit[i].0, emit[i].1[key_col as int]),
        ),
    }
}

/// The records of a batch whose key column `k` holds the key value `kv`, in
/// their original order.
pub open spec fn matching(rs: Seq<RecordV>, k: int, kv: ValueV) -> Seq<RecordV>
    decreases rs.len(),
{
    if rs.len() == 0 {
        Seq::empty()
    } else {
        (if rs[0].row[k] == kv {
            seq![rs[0]]
        } else {
            Seq::empty()
        }) + matching(rs.drop_first(), k, kv)
    }
}

proof fn lemma_matching_push(rs: Seq<RecordV>, k: int, kv: ValueV, r: RecordV)
    ensures
        matching(rs.push(r), k, kv) == matching(rs, k, kv) + (if r.row[k] == kv {
            seq![r]
        } else {
            Seq::<RecordV>::empty()
        }),
    decreases rs.len(),
{
    if rs.len() == 0 {
        reveal_with_fuel(matching, 2);
        assert(rs.push(r).drop_first() =~= Seq::<RecordV>::empty());
        assert(rs.push(r)[0] == r);
        assert(matching(rs.push(r), k, kv) =~= matching(rs, k, kv) + (if r.row[k] == kv {
            seq![r]
        } else {
            Seq::<RecordV>::empty()
        }));
    } else {
        let ghost tailbit: Seq<RecordV> = if r.row[k] == kv {
            seq![r]
        } else {
            Seq::empty()
        };
        let ghost headbit: Seq<RecordV> = if rs[0].row[k] == kv {
            seq![rs[0]]
        } else {
            Seq::empty()
        };
        assert(rs.push(r).len() != 0);
        assert(rs.push(r)[0] == rs[0]);
        assert(rs.push(r).drop_first() =~= rs.drop_first().push(r));
        lemma_matching_push(rs.drop_first(), k, kv, r);
        assert(matching(rs.push(r), k, kv) == headbit + (matching(rs.drop_first(), k, kv)
            + tailbit));
        assert(matching(rs, k, kv) == headbit + matching(rs.drop_first(), k, kv));
        assert(headbit + (matching(rs.drop_first(), k, kv) + tailbit) =~= (headbit + matching(
            rs.drop_first(),
            k,
            kv,
        )) + tailbit);
    }
}

/// The number of pieces that completes a key's refill: the shard count under
/// shard-merge, the ancestor count under a projecting union.
pub open spec fn n_needed(e: EmitView, nshards: usize) -> int {
    match e {
        EmitView::AllFrom(_) => nshards as int,
        EmitView::Project { emit, .. } => emit.len() as int,
    }
}

/// The merged output released when a key's refill completes: every
/// ancestor's buffered batch put independently through the regular
/// transform, concatenated in buffer order.  Each ancestor's internal record
/// order is preserved; the order across ancestors carries no meaning.
pub open spec fn release_output(e: EmitView, inner: Seq<(NodeId, Seq<RecordV>)>) -> Seq<RecordV>
    decreases inner.len(),
{
    if inner.len() == 0 {
        Seq::empty()
    } else {
        transform_batch(e, inner[0].0, inner[0].1) + release_output(e, inner.drop_first())
    }
}

proof fn lemma_release_output_push(
    e: EmitView,
    inner: Seq<(NodeId, Seq<RecordV>)>,
    entry: (NodeId, Seq<RecordV>),
)
    ensures
        release_output(e, inner.push(entry)) == release_output(e, inner) + transform_batch(
            e,
            entry.0,
            entry.1,
        ),
    decreases inner.len(),
{
    if inner.len() == 0 {
        reveal_with_fuel(release_output, 2);
        assert(inner.push(entry).drop_first() =~= Seq::<(NodeId, Seq<RecordV>)>::empty());
        assert(inner.push(entry)[0] == entry);
        assert(release_output(e, inner.push(entry)) =~= release_output(e, inner)
            + transform_batch(e, entry.0, entry.1));
    } else {
        let ghost tb = transform_batch(e, entry.0, entry.1);
        let ghost hb = transform_batch(e, inner[0].0, inner[0].1);
        assert(inner.push(entry).len() != 0);
        assert(inner.push(entry)[0] == inner[0]);
        assert(inner.push(entry).drop_first() =~= inner.drop_first().push(entry));
        lemma_release_output_push(e, inner.drop_first(), entry);
        assert(release_output(e, inner.push(entry)) == hb + (release_output(e, inner.drop_first())
            + tb));
        assert(release_output(e, inner) == hb + release_output(e, inner.drop_first()));
        assert(hb + (release_output(e, inner.drop_first()) + tb) =~= (hb + release_output(
            e,
            inner.drop_first(),
        )) + tb);
    }
}

/// Every record selected by `matching` is a record of the batch it was
/// selected from, so whatever fits the batch fits the selection.
pub proof fn lemma_matching_fits(rs: Seq<RecordV>, k: int, kv: ValueV, cols: Seq<usize>)
    requires
        batch_fits(rs, cols),
    ensures
        batch_fits(matching(rs, k, kv), cols),
    decreases rs.len(),
{
    if rs.len() != 0 {
        assert(batch_fits(rs.drop_first(), cols)) by {
            assert(forall|i: int|
                0 <= i < rs.drop_first().len() ==> (#[trigger] rs.drop_first()[i]) == rs[i + 1]);
        }
        lemma_matching_fits(rs.drop_first(), k, kv, cols);
        let m = matching(rs, k, kv);
        let hb: Seq<RecordV> = if rs[0].row[k] == kv {
            seq![rs[0]]
        } else {
            Seq::empty()
        };
        assert(forall|i: int|
            0 <= i < m.len() ==> row_fits((#[trigger] m[i]).row, cols)) by {
            assert(forall|i: int|
                hb.len() <= i < m.len() ==> m[i] == matching(rs.drop_first(), k, kv)[i - hb.len()]);
        }
    }
}

proof fn lemma_fits_concat(a: Seq<RecordV>, b: Seq<RecordV>, cols: Seq<usize>)
    requires
        batch_fits(a, cols),
        batch_fits(b, cols),
    ensures
        batch_fits(a + b, cols),
{
    assert forall|i: int| 0 <= i < (a + b).len() implies row_fits(((a + b)[i]).row, cols) by {
        if i < a.len() {
            assert((a + b)[i] == a[i]);
        } else {
            assert((a + b)[i] == b[i - a.len()]);
        }
    }
}

/// Whether an ordinary batch can be leak-forwarded while a refill is in
/// flight: the sending ancestor must have a replay key entry, and each
/// record must reach up to its key column.  (Under a projecting union both
/// already follow from well-formedness and `input_ok`.)
pub open spec fn leak_ok(v: UnionView, from: NodeId, rs: Seq<RecordV>) -> bool {
    (v.replay_key is Some && v.pieces.len() > 0) ==> {
        let rk = v.replay_key->Some_0;
        has_key(rk, from) && forall|i: int|
            0 <= i < rs.len() ==> (assoc_get(rk, from) as int) < (#[trigger] rs[i]).row.len()
    }
}

/// The replay buffer after leak-forwarding an ordinary batch from ancestor
/// `from`: wherever a piece from `from` is already buffered for some key,
/// the batch's records carrying that key are appended to it, in order;
/// everything else is untouched.
pub open spec fn leaked_pieces(v: UnionView, from: NodeId, rs: Seq<RecordV>) -> Seq<
    (ValueV, Seq<(NodeId, Seq<RecordV>)>),
> {
    let k = assoc_get(v.replay_key->Some_0, from) as int;
    Seq::new(
        v.pieces.len(),
        |i: int|
            (
                v.pieces[i].0,
                Seq::new(
                    v.pieces[i].1.len(),
                    |j: int|
                        (
                            v.pieces[i].1[j].0,
                            if v.pieces[i].1[j].0 == from {
                                v.pieces[i].1[j].1 + matching(rs, k, v.pieces[i].0)
                            } else {
                                v.pieces[i].1[j].1
                            },
                        ),
                ),
            ),
    )
}

/// The replay buffer after storing one replay piece from ancestor `from`
/// under the key value `kv`: appended to the key's entry if one exists,
/// otherwise opening a fresh entry.
pub open spec fn buffered_pieces(v: UnionView, from: NodeId, kv: ValueV, rs: Seq<RecordV>) -> Seq<
    (ValueV, Seq<(NodeId, Seq<RecordV>)>),
> {
    if has_key(v.pieces, kv) {
        let pi = key_index(v.pieces, kv);
        v.pieces.update(pi, (kv, v.pieces[pi].1.push((from, rs))))
    } else {
        v.pieces.push((kv, seq![(from, rs)]))
    }
}

proof fn lemma_replay_key_wf(v: UnionView, from: NodeId, key_col: usize)
    requires
        v.wf(),
        v.replay_key is None ==> match v.emit {
            EmitView::AllFrom(_) => true,
            EmitView::Project { emit, .. } => forall|i: int|
                0 <= i < emit.len() ==> (key_col as int) < (#[trigger] emit[i]).1.len(),
        },
    ensures
        (UnionView {
            emit: v.emit,
            replay_key: Option::Some(
                if v.replay_key is Some {
                    v.replay_key->Some_0
                } else {
                    replay_key_for(v.emit, from, key_col)
                },
            ),
            pieces: v.pieces,
        }).wf(),
{
    if v.replay_key is None {
        match v.emit {
            EmitView::AllFrom(_) => {},
            EmitView::Project { emit, .. } => {
                let rk = replay_key_for(v.emit, from, key_col);
                assert(forall|i: int|
                    0 <= i < rk.len() ==> #[trigger] rk[i] == (
                        emit[i].0,
                        emit[i].1[key_col as int],
                    ));
                assert forall|i: int| 0 <= i < rk.len() implies (#[trigger] rk[i]).0 == emit[i].0
                    && emit[i].1.contains(rk[i].1) by {
                    assert(emit[i].1[key_col as int] == rk[i].1);
                }
                assert(distinct_keys(rk)) by {
                    assert(forall|i: int, j: int|
                        0 <= i < j < rk.len() ==> (#[trigger] emit[i]).0 != (#[trigger] emit[j]).0);
                }
            },
        }
    }
}

proof fn lemma_buffer_keeps_wf(v: UnionView, from: NodeId, kv: ValueV, rs: Seq<RecordV>)
    requires
        v.wf(),
        v.replay_key is Some,
        input_ok(v.emit, from, rs),
        has_key(v.pieces, kv) ==> !has_key(assoc_get(v.pieces, kv), from),
    ensures
        (UnionView {
            emit: v.emit,
            replay_key: v.replay_key,
            pieces: buffered_pieces(v, from, kv, rs),
        }).wf(),
{
    let b = buffered_pieces(v, from, kv, rs);
    let w = UnionView { emit: v.emit, replay_key: v.replay_key, pieces: b };
    if has_key(v.pieces, kv) {
        let pi = key_index(v.pieces, kv);
        let oinner = v.pieces[pi].1;
        let ninner = oinner.push((from, rs));
        assert(forall|i: int| 0 <= i < b.len() && i != pi ==> #[trigger] b[i] == v.pieces[i]);
        assert(b[pi] == (kv, ninner));
        assert(v.pieces[pi].0 == kv);
        assert(distinct_keys(b)) by {
            assert(forall|i: int| 0 <= i < b.len() ==> (#[trigger] b[i]).0 == v.pieces[i].0);
        }
        assert(distinct_keys(ninner)) by {
            assert(forall|j: int|
                0 <= j < oinner.len() ==> #[trigger] ninner[j] == oinner[j]);
            assert(forall|j: int| 0 <= j < oinner.len() ==> (#[trigger] oinner[j]).0 != from);
            assert(ninner[oinner.len() as int].0 == from);
        }
        assert forall|i: int| 0 <= i < w.pieces.len() implies {
            let inner = (#[trigger] w.pieces[i]).1;
            distinct_keys(inner) && inner.len() >= 1 && forall|j: int|
                0 <= j < inner.len() ==> match w.emit {
                    EmitView::AllFrom(_) => true,
                    EmitView::Project { emit, .. } => has_key(emit, (#[trigger] inner[j]).0)
                        && batch_fits(inner[j].1, assoc_get(emit, inner[j].0)),
                }
        } by {
            if i == pi {
                assert forall|j: int| 0 <= j < ninner.len() implies match w.emit {
                    EmitView::AllFrom(_) => true,
                    EmitView::Project { emit, .. } => has_key(emit, (#[trigger] ninner[j]).0)
                        && batch_fits(ninner[j].1, assoc_get(emit, ninner[j].0)),
                } by {
                    if j < oinner.len() {
                        assert(ninner[j] == oinner[j]);
                    } else {
                        assert(ninner[j] == (from, rs));
                    }
                }
            }
        }
    } else {
        assert(forall|i: int|
            0 <= i < v.pieces.len() ==> #[trigger] b[i] == v.pieces[i]);
        assert(b[v.pieces.len() as int] == (kv, seq![(from, rs)]));
        assert(distinct_keys(b)) by {
            assert(forall|i: int| 0 <= i < v.pieces.len() ==> (#[trigger] v.pieces[i]).0 != kv);
        }
        assert(distinct_keys(seq![(from, rs)]));
        assert(seq![(from, rs)][0] == (from, rs));
        assert forall|i: int| 0 <= i < w.pieces.len() implies {
            let inner = (#[trigger] w.pieces[i]).1;
            distinct_keys(inner) && inner.len() >= 1 && forall|j: int|
                0 <= j < inner.len() ==> match w.emit {
                    EmitView::AllFrom(_) => true,
                    EmitView::Project { emit, .. } => has_key(emit, (#[trigger] inner[j]).0)
                        && batch_fits(inner[j].1, assoc_get(emit, inner[j].0)),
                }
        } by {
            if i == v.pieces.len() {
                let inner = w.pieces[i].1;
                assert(inner =~= seq![(from, rs)]);
                assert(forall|j: int| 0 <= j < inner.len() ==> j == 0 && (#[trigger] inner[j]) == (
                from, rs));
            }
        }
    }
}

proof fn lemma_remove_keeps_wf(w: UnionView, pi: int)
    requires
        w.wf(),
        0 <= pi < w.pieces.len(),
    ensures
        (UnionView { emit: w.emit, replay_key: w.replay_key, pieces: w.pieces.remove(pi) }).wf(),
{
    let b = w.pieces.remove(pi);
    assert(forall|i: int|
        0 <= i < b.len() ==> #[trigger] b[i] == (if i < pi {
            w.pieces[i]
        } else {
            w.pieces[i + 1]
        }));
    assert(distinct_keys(b));
}

proof fn lemma_inner_input_ok(v: UnionView, pi: int, from: NodeId, rs: Seq<RecordV>)
    requires
        v.wf(),
        0 <= pi < v.pieces.len(),
        input_ok(v.emit, from, rs),
    ensures
        ({
            let ninner = v.pieces[pi].1.push((from, rs));
            forall|j: int|
                0 <= j < ninner.len() ==> input_ok(
                    v.emit,
                    (#[trigger] ninner[j]).0,
                    ninner[j].1,
                )
        }),
{
    let oinner = v.pieces[pi].1;
    let ninner = oinner.push((from, rs));
    assert forall|j: int| 0 <= j < ninner.len() implies input_ok(
        v.emit,
        (#[trigger] ninner[j]).0,
        ninner[j].1,
    ) by {
        if j < oinner.len() {
            assert(ninner[j] == oinner[j]);
            assert(distinct_keys(oinner) && oinner.len() >= 1);
        } else {
            assert(ninner[j] == (from, rs));
        }
    }
}

proof fn lemma_leaked_wf(v: UnionView, from: NodeId, rs: Seq<RecordV>)
    requires
        v.wf(),
        v.replay_key is Some,
        input_ok(v.emit, from, rs),
        leak_ok(v, from, rs),
    ensures
        (UnionView {
            emit: v.emit,
            replay_key: v.replay_key,
            pieces: leaked_pieces(v, from, rs),
        }).wf(),
{
    let t = leaked_pieces(v, from, rs);
    let w = UnionView { emit: v.emit, replay_key: v.replay_key, pieces: t };
    let k = assoc_get(v.replay_key->Some_0, from) as int;
    assert(distinct_keys(t)) by {
        assert(forall|i: int| 0 <= i < t.len() ==> (#[trigger] t[i]).0 == v.pieces[i].0);
    }
    assert forall|i: int| 0 <= i < w.pieces.len() implies {
        let inner = (#[trigger] w.pieces[i]).1;
        distinct_keys(inner) && inner.len() >= 1 && forall|j: int|
            0 <= j < inner.len() ==> match w.emit {
                EmitView::AllFrom(_) => true,
                EmitView::Project { emit, .. } => has_key(emit, (#[trigger] inner[j]).0)
                    && batch_fits(inner[j].1, assoc_get(emit, inner[j].0)),
            }
    } by {
        let oinner = v.pieces[i].1;
        let inner = w.pieces[i].1;
        assert(inner.len() == oinner.len());
        assert(forall|j: int| 0 <= j < inner.len() ==> (#[trigger] inner[j]).0 == oinner[j].0);
        assert(distinct_keys(inner));
        assert forall|j: int| 0 <= j < inner.len() implies match w.emit {
            EmitView::AllFrom(_) => true,
            EmitView::Project { emit, .. } => has_key(emit, (#[trigger] inner[j]).0)
                && batch_fits(inner[j].1, assoc_get(emit, inner[j].0)),
        } by {
            match w.emit {
                EmitView::AllFrom(_) => {},
                EmitView::Project { emit, .. } => {
                    assert(has_key(emit, oinner[j].0) && batch_fits(
                        oinner[j].1,
                        assoc_get(emit, oinner[j].0),
                    ));
                    if oinner[j].0 == from {
                        assert(inner[j].1 == oinner[j].1 + matching(rs, k, v.pieces[i].0));
                        lemma_matching_fits(rs, k, v.pieces[i].0, assoc_get(emit, from));
                        lemma_fits_concat(
                            oinner[j].1,
                            matching(rs, k, v.pieces[i].0),
                            assoc_get(emit, from),
                        );
                    } else {
                        assert(inner[j].1 == oinner[j].1);
                    }
                },
            }
        }
    }
}

/// The identifier a node carries after a migration: its entry in the
/// old-to-new mapping, or itself where the mapping has none.
pub open spec fn remapped(k: NodeId, remap: Seq<(NodeId, NodeId)>) -> NodeId {
    if has_key(remap, k) {
        assoc_get(remap, k)
    } else {
        k
    }
}

/// Rewrite one identifier through the old-to-new mapping.
pub fn remap_node(k: NodeId, remap: &Vec<(NodeId, NodeId)>) -> (r: NodeId)
    requires
        distinct_keys(remap@),
    ensures
        r == remapped(k, remap@),
{
    match node_key_position(remap, k) {
        Option::Some(t) => {
            proof {
                lemma_key_index_unique(remap@, t as int);
            }
            remap[t].1
        },
        Option::None => {
            assert(!has_key(remap@, k));
            k
        },
    }
}

/// One entry inserted into an already node-sorted list of entries, before
/// the first entry it does not come after.
pub open spec fn sorted_insert(
    s: Seq<(NodeId, Seq<usize>)>,
    e: (NodeId, Seq<usize>),
) -> Seq<(NodeId, Seq<usize>)>
    decreases s.len(),
{
    if s.len() == 0 {
        seq![e]
    } else if node_le(e.0, s[0].0) {
        seq![e] + s
    } else {
        seq![s[0]] + sorted_insert(s.drop_first(), e)
    }
}

/// The entries listed in node order, by insertion.
pub open spec fn sort_by_node(s: Seq<(NodeId, Seq<usize>)>) -> Seq<(NodeId, Seq<usize>)>
    decreases s.len(),
{
    if s.len() == 0 {
        Seq::empty()
    } else {
        sorted_insert(sort_by_node(s.drop_last()), s.last())
    }
}

proof fn lemma_sorted_insert_at(s: Seq<(NodeId, Seq<usize>)>, e: (NodeId, Seq<usize>), p: int)
    requires
        0 <= p <= s.len(),
        forall|q: int| 0 <= q < p ==> !node_le(e.0, (#[trigger] s[q]).0),
        p < s.len() ==> node_le(e.0, s[p].0),
    ensures
        sorted_insert(s, e) == s.insert(p, e),
    decreases s.len(),
{
    if s.len() == 0 {
        assert(sorted_insert(s, e) =~= s.insert(0, e));
    } else if p == 0 {
        assert(node_le(e.0, s[0].0));
        assert(seq![e] + s =~= s.insert(0, e));
    } else {
        assert(!node_le(e.0, s[0].0));
        assert(forall|q: int|
            0 <= q < p - 1 ==> !node_le(e.0, (#[trigger] s.drop_first()[q]).0));
        lemma_sorted_insert_at(s.drop_first(), e, p - 1);
        assert(seq![s[0]] + s.drop_first().insert(p - 1, e) =~= s.insert(p, e));
    }
}

/// The rendering of one column list: its indices in decimal, comma
/// separated.
pub open spec fn cols_str(c: Seq<usize>) -> Seq<char>
    decreases c.len(),
{
    if c.len() == 0 {
        Seq::empty()
    } else if c.len() == 1 {
        dec_str(c[0] as nat)
    } else {
        cols_str(c.drop_last()) + ", "@ + dec_str(c.last() as nat)
    }
}

/// The rendering of one ancestor's entry: the node, then its column list in
/// brackets.
pub open spec fn entry_str(e: (NodeId, Seq<usize>)) -> Seq<char> {
    node_str(e.0) + ":["@ + cols_str(e.1) + "]"@
}

/// The rendering of a whole entry list, in its given order.
pub open spec fn entries_str(s: Seq<(NodeId, Seq<usize>)>) -> Seq<char>
    decreases s.len(),
{
    if s.len() == 0 {
        Seq::empty()
    } else if s.len() == 1 {
        entry_str(s[0])
    } else {
        entries_str(s.drop_last()) + " \u{22c3} "@ + entry_str(s.last())
    }
}

/// The outcome of processing one ordinary batch: the transformed records,
/// and the lookups that missed — always none, since this operator never
/// queries other state.
pub struct ProcessingResult {
    pub results: Vec<Record>,
    pub misses: Vec<Record>,
}

/// The outcome of replay-aware processing: an ordinary result, a fully
/// absorbed ("captured") replay piece, or a completed, merged replay piece
/// released downstream.
pub enum RawProcessingResult {
    Regular(ProcessingResult),
    ReplayPiece(Vec<Record>),
    Captured,
}

fn clone_cols(v: &Vec<usize>) -> (c: Vec<usize>)
    ensures
        c@ == v@,
{
    let mut c: Vec<usize> = Vec::new();
    let mut i: usize = 0;
    while i < v.len()
        invariant
            i <= v@.len(),
            c@ =~= v@.subrange(0, i as int),
        decreases v@.len() - i,
    {
        c.push(v[i]);
        i = i + 1;
    }
    assert(c@ =~= v@);
    c
}

fn clone_emit(e: &Emit) -> (c: Emit)
    ensures
        c@ == e@,
{
    match e {
        Emit::AllFrom(p) => Emit::AllFrom(*p),
        Emit::Project { emit, cols } => {
            let mut e2: Vec<(NodeId, Vec<usize>)> = Vec::new();
            let mut i: usize = 0;
            while i < emit.len()
                invariant
                    i <= emit@.len(),
                    e2@.len() == i,
                    forall|j: int|
                        0 <= j < i ==> (#[trigger] e2@[j]).0 == emit@[j].0 && e2@[j].1@
                            == emit@[j].1@,
                decreases emit@.len() - i,
            {
                e2.push((emit[i].0, clone_cols(&emit[i].1)));
                i = i + 1;
            }
            let mut c2: Vec<(NodeId, usize)> = Vec::new();
            let mut k: usize = 0;
            while k < cols.len()
                invariant
                    k <= cols@.len(),
                    c2@ =~= cols@.subrange(0, k as int),
                decreases cols@.len() - k,
            {
                c2.push(cols[k]);
                k = k + 1;
            }
            assert(c2@ =~= cols@);
            let c = Emit::Project { emit: e2, cols: c2 };
            proof {
                assert(emit_table_view(e2@) =~= emit_table_view(emit@));
            }
            c
        },
    }
}

impl Clone for Union {
    /// A duplicate for relocation to a new execution domain: the immutable
    /// policy is preserved, the replay key and the replay buffer are reset,
    /// since no traffic has reached the new copy yet.
    fn clone(&self) -> (r: Union)
        ensures
            r@.emit == self@.emit,
            r@.replay_key is None,
            r@.pieces.len() == 0,
            self@.wf() ==> r@.wf(),
    {
        let r = Union {
            emit: clone_emit(&self.emit),
            // nothing can have been received yet
            replay_key: Option::None,
            replay_pieces: Vec::new(),
        };
        proof {
            assert(r@.pieces =~= Seq::<(ValueV, Seq<(NodeId, Seq<RecordV>)>)>::empty());
        }
        r
    }
}

impl Union {
    /// Hand the operator over to the engine: a fresh, policy-preserving,
    /// state-reset copy; the original is left in place.
    pub fn take(&mut self) -> (r: Union)
        ensures
            *final(self) == *old(self),
            r@.emit == old(self)@.emit,
            r@.replay_key is None,
            r@.pieces.len() == 0,
            old(self)@.wf() ==> r@.wf(),
    {
        self.clone()
    }

    /// Construct a new union operator.
    ///
    /// When receiving an update from node `a`, a union will emit the columns
    /// selected in `emit[a]`.  `emit` only supports omitting columns, not
    /// rearranging them: each column list must be strictly increasing, the
    /// table must be non-empty and must name each ancestor once.
    pub fn new(emit: Vec<(NodeId, Vec<usize>)>) -> (u: Union)
        requires
            emit@.len() > 0,
            distinct_keys(emit@),
            all_increasing(emit_table_view(emit@)),
        ensures
            u@.emit == (EmitView::Project {
                emit: emit_table_view(emit@),
                cols: Seq::<(NodeId, usize)>::empty(),
            }),
            u@.replay_key is None,
            u@.pieces.len() == 0,
            u@.wf(),
    {
        let ghost ev = emit_table_view(emit@);
        let u = Union {
            emit: Emit::Project { emit, cols: Vec::new() },
            replay_key: Option::None,
            replay_pieces: Vec::new(),
        };
        proof {
            assert(distinct_keys(ev)) by {
                assert(forall|i: int| 0 <= i < ev.len() ==> (#[trigger] ev[i]).0 == emit@[i].0);
            }
            assert(u@.pieces =~= Seq::<(ValueV, Seq<(NodeId, Seq<RecordV>)>)>::empty());
        }
        u
    }

    /// Construct a union operator, rejecting an unsupported configuration: an
    /// empty table, an ancestor named twice, or a column list that is not
    /// strictly increasing (reordering is unsupported by design).
    pub fn try_new(emit: Vec<(NodeId, Vec<usize>)>) -> (r: Option<Union>)
        ensures
            match r {
                Option::Some(u) => emit@.len() > 0 && distinct_keys(emit@) && all_increasing(
                    emit_table_view(emit@),
                ) && u@.emit == (EmitView::Project {
                    emit: emit_table_view(emit@),
                    cols: Seq::<(NodeId, usize)>::empty(),
                }) && u@.replay_key is None && u@.pieces.len() == 0 && u@.wf(),
                Option::None => !(emit@.len() > 0 && distinct_keys(emit@) && all_increasing(
                    emit_table_view(emit@),
                )),
            },
    {
        if emit.len() == 0 {
            return Option::None;
        }
        let mut i: usize = 0;
        while i < emit.len()
            invariant
                i <= emit@.len(),
                forall|p: int, q: int| 0 <= p < q < i ==> (#[trigger] emit@[p]).0 != (
                #[trigger] emit@[q]).0,
                forall|p: int|
                    0 <= p < i ==> strictly_increasing((#[trigger] emit_table_view(emit@)[p]).1),
            decreases emit@.len() - i,
        {
            let mut j: usize = 0;
            while j < i
                invariant
                    j <= i,
                    i < emit@.len(),
                    forall|p: int| 0 <= p < j ==> (#[trigger] emit@[p]).0 != emit@[i as int].0,
                decreases i - j,
            {
                if emit[j].0 == emit[i].0 {
                    assert(!distinct_keys(emit@));
                    return Option::None;
                }
                j = j + 1;
            }
            if !check_strictly_increasing(&emit[i].1) {
                assert(!all_increasing(emit_table_view(emit@))) by {
                    assert((emit_table_view(emit@)[i as int]).1 == emit@[i as int].1@);
                }
                return Option::None;
            }
            assert((emit_table_view(emit@)[i as int]).1 == emit@[i as int].1@);
            i = i + 1;
        }
        Option::Some(Union::new(emit))
    }

    /// Construct a new union operator meant to de-shard a sharded data-flow
    /// subtree.  The "ancestor" tag on inbound batches is then a shard index
    /// of the one logical parent.
    pub fn new_deshard(parent: NodeId) -> (u: Union)
        ensures
            u@.emit == EmitView::AllFrom(parent),
            u@.replay_key is None,
            u@.pieces.len() == 0,
            u@.wf(),
    {
        let u = Union {
            emit: Emit::AllFrom(parent),
            replay_key: Option::None,
            replay_pieces: Vec::new(),
        };
        proof {
            assert(u@.pieces =~= Seq::<(ValueV, Seq<(NodeId, Seq<RecordV>)>)>::empty());
        }
        u
    }

    /// The ancestors the operator draws from: the single parent under
    /// shard-merge, every configured ancestor under a projecting union.
    pub fn ancestors(&self) -> (r: Vec<NodeId>)
        ensures
            match self@.emit {
                EmitView::AllFrom(p) => r@ =~= seq![p],
                EmitView::Project { emit, .. } => r@.len() == emit.len() && forall|i: int|
                    0 <= i < emit.len() ==> r@[i] == (#[trigger] emit[i]).0,
            },
    {
        match &self.emit {
            Emit::AllFrom(p) => {
                let mut r: Vec<NodeId> = Vec::new();
                r.push(*p);
                r
            },
            Emit::Project { emit, .. } => {
                let mut r: Vec<NodeId> = Vec::new();
                let mut i: usize = 0;
                while i < emit.len()
                    invariant
                        i <= emit@.len(),
                        r@.len() == i,
                        forall|j: int| 0 <= j < i ==> r@[j] == (#[trigger] emit@[j]).0,
                    decreases emit@.len() - i,
                {
                    r.push(emit[i].0);
                    i = i + 1;
                }
                r
            },
        }
    }

    /// The regular transform of one ordinary batch from ancestor `from`:
    /// identity under shard-merge, per-record column projection under a
    /// projecting union.  Purely functional: no state is read or written,
    /// record order and signs are preserved, and no lookups are missed.
    pub fn on_input(&self, from: NodeId, rs: Vec<Record>) -> (res: ProcessingResult)
        requires
            self@.wf(),
            input_ok(self@.emit, from, batch_view(rs@)),
        ensures
            batch_view(res.results@) == transform_batch(self@.emit, from, batch_view(rs@)),
            res.misses@.len() == 0,
    {
        match &self.emit {
            Emit::AllFrom(_) => ProcessingResult { results: rs, misses: Vec::new() },
            Emit::Project { emit, .. } => {
                let ghost emitv = emit_table_view(emit@);
                let pos = match node_key_position(emit, from) {
                    Option::Some(p) => p,
                    Option::None => {
                        proof {
                            let w = choose|i: int|
                                0 <= i < emitv.len() && (#[trigger] emitv[i]).0 == from;
                            assert(emit@[w].0 == from);
                        }
                        0
                    },
                };
                let cols = &emit[pos].1;
                proof {
                    assert(emitv[pos as int].0 == from && emitv[pos as int].1 == cols@);
                    lemma_key_index_unique(emitv, pos as int);
                }
                let ghost colsv = assoc_get(emitv, from);
                assert(colsv == cols@);
                let mut results: Vec<Record> = Vec::new();
                let mut i: usize = 0;
                while i < rs.len()
                    invariant
                        i <= rs@.len(),
                        results@.len() == i,
                        colsv == cols@,
                        batch_fits(batch_view(rs@), colsv),
                        forall|t: int|
                            0 <= t < i ==> (#[trigger] results@[t])@ == (RecordV {
                                pos: rs@[t]@.pos,
                                row: project_row(rs@[t]@.row, colsv),
                            }),
                    decreases rs@.len() - i,
                {
                    let r = &rs[i];
                    let row = r.row();
                    assert(batch_view(rs@)[i as int] == r@);
                    assert(row_fits(r@.row, colsv));
                    let mut out: Vec<Value> = Vec::new();
                    let mut j: usize = 0;
                    while j < cols.len()
                        invariant
                            j <= cols@.len(),
                            out@.len() == j,
                            colsv == cols@,
                            row_view(row@) == r@.row,
                            row_fits(r@.row, colsv),
                            forall|t: int| 0 <= t < j ==> (#[trigger] out@[t])@ == r@.row[cols@[t] as int],
                        decreases cols@.len() - j,
                    {
                        let c = cols[j];
                        assert((c as int) < r@.row.len());
                        assert(row@.len() == r@.row.len());
                        let v = clone_value(&row[c]);
                        proof {
                            assert(row_view(row@)[c as int] == row@[c as int]@);
                        }
                        out.push(v);
                        j = j + 1;
                    }
                    assert(row_view(out@) =~= project_row(r@.row, colsv));
                    let rec = if r.is_positive() {
                        Record::Positive(out)
                    } else {
                        Record::Negative(out)
                    };
                    results.push(rec);
                    i = i + 1;
                }
                proof {
                    assert(batch_view(results@) =~= transform_batch(
                        self@.emit,
                        from,
                        batch_view(rs@),
                    ));
                }
                ProcessingResult { results, misses: Vec::new() }
            },
        }
    }

    /// Run every buffered batch of a completed key independently through the
    /// regular transform and concatenate the results, in buffer order.
    fn release(&self, inner: Vec<(NodeId, Vec<Record>)>) -> (out: Vec<Record>)
        requires
            self@.wf(),
            forall|j: int|
                0 <= j < inner@.len() ==> input_ok(
                    self@.emit,
                    (#[trigger] inner_pieces_view(inner@)[j]).0,
                    inner_pieces_view(inner@)[j].1,
                ),
        ensures
            batch_view(out@) == release_output(self@.emit, inner_pieces_view(inner@)),
    {
        let ghost origv = inner_pieces_view(inner@);
        let mut inner = inner;
        let mut out: Vec<Record> = Vec::new();
        proof {
            assert(inner_pieces_view(inner@) =~= origv.subrange(0, origv.len() as int));
            assert(batch_view(out@) =~= release_output(self@.emit, origv.subrange(0, 0)));
        }
        while inner.len() > 0
            invariant
                self@.wf(),
                inner@.len() <= origv.len(),
                inner_pieces_view(inner@) =~= origv.subrange(
                    origv.len() - inner@.len(),
                    origv.len() as int,
                ),
                batch_view(out@) == release_output(
                    self@.emit,
                    origv.subrange(0, origv.len() - inner@.len()),
                ),
                forall|j: int|
                    0 <= j < origv.len() ==> input_ok(
                        self@.emit,
                        (#[trigger] origv[j]).0,
                        origv[j].1,
                    ),
            decreases inner@.len(),
        {
            let ghost g = origv.len() - inner@.len();
            proof {
                assert(inner_pieces_view(inner@)[0] == origv[g]);
            }
            let ghost prev = inner@;
            let entry = inner.remove(0);
            proof {
                assert(entry.0 == origv[g].0 && batch_view(entry.1@) == origv[g].1);
                assert(forall|t: int| 0 <= t < inner@.len() ==> #[trigger] inner@[t] == prev[t + 1]);
                assert(forall|t: int|
                    0 <= t < inner@.len() ==> #[trigger] inner_pieces_view(inner@)[t]
                        == inner_pieces_view(prev)[t + 1]);
                assert(inner_pieces_view(inner@) =~= origv.subrange(g + 1, origv.len() as int));
            }
            let pr = self.on_input(entry.0, entry.1);
            let mut rres = pr.results;
            out.append(&mut rres);
            proof {
                assert(origv.subrange(0, g + 1) =~= origv.subrange(0, g).push(origv[g as int]));
                lemma_release_output_push(self@.emit, origv.subrange(0, g), origv[g as int]);
                assert(batch_view(out@) =~= release_output(self@.emit, origv.subrange(0, g + 1)));
            }
        }
        proof {
            assert(origv.subrange(0, origv.len() as int) =~= origv);
        }
        out
    }

    /// Replay-aware processing of one inbound batch from ancestor `from`
    /// (under shard-merge, `from` is reinterpreted by the caller as the
    /// shard index of the one logical parent).
    ///
    /// An ordinary batch is put through the regular transform and always
    /// forwarded; while a per-key refill is in flight, each record is
    /// additionally appended to the already-buffered piece of its key from
    /// this ancestor, if one exists, so that it cannot be lost from the
    /// eventual merged replay.  A replay piece tagged with an output key
    /// column and key value is buffered; the piece that completes the key —
    /// one from each of the `nshards` shards (shard-merge) or from every
    /// ancestor (projecting union) — has the key's whole buffer removed,
    /// transformed and released, and in between the batch is fully absorbed.
    pub fn on_input_raw(
        &mut self,
        from: NodeId,
        rs: Vec<Record>,
        is_replay_of: Option<(usize, Value)>,
        nshards: usize,
    ) -> (res: RawProcessingResult)
        requires
            old(self)@.wf(),
            input_ok(old(self)@.emit, from, batch_view(rs@)),
            match is_replay_of {
                Option::None => leak_ok(old(self)@, from, batch_view(rs@)),
                Option::Some((key_col, key_val)) => (has_key(old(self)@.pieces, key_val@)
                    ==> !has_key(assoc_get(old(self)@.pieces, key_val@), from)) && (old(
                    self,
                )@.replay_key is None ==> match old(self)@.emit {
                    EmitView::AllFrom(_) => true,
                    EmitView::Project { emit, .. } => forall|i: int|
                        0 <= i < emit.len() ==> (key_col as int) < (#[trigger] emit[i]).1.len(),
                }),
            },
        ensures
            final(self)@.wf(),
            final(self)@.emit == old(self)@.emit,
            match is_replay_of {
                Option::None => final(self)@.replay_key == old(self)@.replay_key && (match res {
                    RawProcessingResult::Regular(pr) => batch_view(pr.results@) == transform_batch(
                        old(self)@.emit,
                        from,
                        batch_view(rs@),
                    ) && pr.misses@.len() == 0,
                    _ => false,
                }) && final(self)@.pieces == (if old(self)@.replay_key is None || old(
                    self,
                )@.pieces.len() == 0 {
                    old(self)@.pieces
                } else {
                    leaked_pieces(old(self)@, from, batch_view(rs@))
                }),
                Option::Some((key_col, key_val)) => {
                    let e = old(self)@.emit;
                    let kv = key_val@;
                    let rk = if old(self)@.replay_key is Some {
                        old(self)@.replay_key->Some_0
                    } else {
                        replay_key_for(e, from, key_col)
                    };
                    let b = buffered_pieces(old(self)@, from, kv, batch_view(rs@));
                    let inner = assoc_get(b, kv);
                    final(self)@.replay_key == Option::Some(rk) && if inner.len() == n_needed(
                        e,
                        nshards,
                    ) {
                        final(self)@.pieces == b.remove(key_index(b, kv)) && match res {
                            RawProcessingResult::ReplayPiece(out) => batch_view(out@)
                                == release_output(e, inner),
                            _ => false,
                        }
                    } else {
                        final(self)@.pieces == b && res is Captured
                    }
                },
            },
    {
        let ghost oldv = self@;
        let ghost rsv = batch_view(rs@);
        match is_replay_of {
            Option::None => {
                if self.replay_key.is_none() || self.replay_pieces.len() == 0 {
                    // no replay going on: the ordinary fast path
                    return RawProcessingResult::Regular(self.on_input(from, rs));
                }
                // a partial refill is in flight: keep track of any record
                // that succeeds an already-captured piece of its key, so it
                // is merged into that piece; forwarding it as well is safe,
                // and necessary for downstream nodes without a hole.
                let mut k: usize = 0;
                match &self.replay_key {
                    Option::Some(rk) => {
                        match node_key_position(rk, from) {
                            Option::Some(p) => {
                                proof {
                                    lemma_key_index_unique(rk@, p as int);
                                }
                                k = rk[p].1;
                            },
                            Option::None => {
                                proof {
                                    let w = choose|i: int|
                                        0 <= i < rk@.len() && (#[trigger] rk@[i]).0 == from;
                                    assert(false);
                                }
                            },
                        }
                    },
                    Option::None => {
                        proof {
                            assert(false);
                        }
                    },
                }
                assert(k as int == assoc_get(oldv.replay_key->Some_0, from) as int);
                let ghost target = leaked_pieces(oldv, from, rsv);
                assert(target.len() == oldv.pieces.len());
                let mut pi: usize = 0;
                while pi < self.replay_pieces.len()
                    invariant
                        self@.emit == oldv.emit,
                        self@.replay_key == oldv.replay_key,
                        self@.pieces.len() == oldv.pieces.len(),
                        pi <= oldv.pieces.len(),
                        oldv.wf(),
                        oldv.replay_key is Some,
                        input_ok(oldv.emit, from, rsv),
                        rsv == batch_view(rs@),
                        k as int == assoc_get(oldv.replay_key->Some_0, from) as int,
                        forall|i: int|
                            0 <= i < rsv.len() ==> (k as int) < (#[trigger] rsv[i]).row.len(),
                        target == leaked_pieces(oldv, from, rsv),
                        forall|i: int|
                            pi <= i < oldv.pieces.len() ==> #[trigger] self@.pieces[i]
                                == oldv.pieces[i],
                        forall|i: int| 0 <= i < pi ==> #[trigger] self@.pieces[i] == target[i],
                    decreases oldv.pieces.len() - pi,
                {
                    let ghost pv0 = self@.pieces;
                    let ghost oinner = oldv.pieces[pi as int].1;
                    let ghost kvv = oldv.pieces[pi as int].0;
                    let ghost prevvec = self.replay_pieces@;
                    let mut entry = self.replay_pieces.remove(pi);
                    proof {
                        assert(entry == prevvec[pi as int]);
                        assert(pv0[pi as int] == (entry.0@, inner_pieces_view(entry.1@)));
                        assert(entry.0@ == kvv && inner_pieces_view(entry.1@) == oinner);
                    }
                    match node_key_position(&entry.1, from) {
                        Option::Some(j) => {
                            proof {
                                lemma_key_index_unique(inner_pieces_view(entry.1@), j as int);
                            }
                            let ghost einner = entry.1@;
                            let mut slot = entry.1.remove(j);
                            let ghost slotv0 = batch_view(slot.1@);
                            proof {
                                assert(slot.0 == from && slotv0 == oinner[j as int].1);
                                assert(rsv.subrange(0, 0) =~= Seq::<RecordV>::empty());
                                assert(matching(rsv.subrange(0, 0), k as int, kvv) == Seq::<
                                    RecordV,
                                >::empty());
                                assert(batch_view(slot.1@) =~= slotv0 + matching(
                                    rsv.subrange(0, 0),
                                    k as int,
                                    kvv,
                                ));
                            }
                            let mut t: usize = 0;
                            while t < rs.len()
                                invariant
                                    t <= rs@.len(),
                                    rsv == batch_view(rs@),
                                    slot.0 == from,
                                    entry.0@ == kvv,
                                    forall|i: int|
                                        0 <= i < rsv.len() ==> (k as int) < (
                                        #[trigger] rsv[i]).row.len(),
                                    batch_view(slot.1@) == slotv0 + matching(
                                        rsv.subrange(0, t as int),
                                        k as int,
                                        kvv,
                                    ),
                                decreases rs@.len() - t,
                            {
                                let ghost pre = rsv.subrange(0, t as int);
                                proof {
                                    assert(rsv[t as int] == rs@[t as int]@);
                                    assert(rsv.subrange(0, t + 1) =~= pre.push(rsv[t as int]));
                                    lemma_matching_push(pre, k as int, kvv, rsv[t as int]);
                                }
                                let r = &rs[t];
                                let row = r.row();
                                assert(row@.len() == r@.row.len());
                                if value_eq(&row[k], &entry.0) {
                                    proof {
                                        assert(row_view(row@)[k as int] == row@[k as int]@);
                                        assert(rsv[t as int].row[k as int] == kvv);
                                    }
                                    let ghost sl0 = batch_view(slot.1@);
                                    slot.1.push(clone_record(r));
                                    proof {
                                        assert(batch_view(slot.1@) =~= sl0.push(rsv[t as int]));
                                        assert(matching(rsv.subrange(0, t + 1), k as int, kvv)
                                            == matching(pre, k as int, kvv) + seq![rsv[t as int]]);
                                        assert(sl0.push(rsv[t as int]) =~= slotv0 + (matching(
                                            pre,
                                            k as int,
                                            kvv,
                                        ) + seq![rsv[t as int]]));
                                    }
                                } else {
                                    proof {
                                        assert(row_view(row@)[k as int] == row@[k as int]@);
                                        assert(rsv[t as int].row[k as int] != kvv);
                                        assert(matching(pre, k as int, kvv) + Seq::<
                                            RecordV,
                                        >::empty() =~= matching(pre, k as int, kvv));
                                        assert(matching(rsv.subrange(0, t + 1), k as int, kvv)
                                            == matching(pre, k as int, kvv));
                                    }
                                }
                                t = t + 1;
                            }
                            proof {
                                assert(rsv.subrange(0, rsv.len() as int) =~= rsv);
                            }
                            entry.1.insert(j, slot);
                            proof {
                                assert(inner_pieces_view(entry.1@) =~= target[pi as int].1);
                            }
                        },
                        Option::None => {
                            proof {
                                assert(inner_pieces_view(entry.1@) =~= target[pi as int].1);
                            }
                        },
                    }
                    self.replay_pieces.insert(pi, entry);
                    proof {
                        assert(self@.pieces =~= pv0.update(pi as int, (kvv, inner_pieces_view(
                            entry.1@,
                        ))));
                        assert(self@.pieces[pi as int] == target[pi as int]);
                    }
                    pi = pi + 1;
                }
                proof {
                    assert(self@.pieces =~= target);
                    lemma_leaked_wf(oldv, from, rsv);
                }
                RawProcessingResult::Regular(self.on_input(from, rs))
            },
            Option::Some((key_col, key_val)) => {
                let ghost e = oldv.emit;
                let ghost kv = key_val@;
                // lazily establish the replay key on first arrival: the
                // given key column names our *output* column, which
                // translates back into each ancestor's input column
                if self.replay_key.is_none() {
                    match &self.emit {
                        Emit::AllFrom(_) => {
                            let mut rk: Vec<(NodeId, usize)> = Vec::new();
                            rk.push((from, key_col));
                            self.replay_key = Option::Some(rk);
                            proof {
                                assert(self@.replay_key->Some_0 =~= replay_key_for(
                                    e,
                                    from,
                                    key_col,
                                ));
                            }
                        },
                        Emit::Project { emit, .. } => {
                            let ghost emitv = emit_table_view(emit@);
                            let mut rk: Vec<(NodeId, usize)> = Vec::new();
                            let mut i: usize = 0;
                            while i < emit.len()
                                invariant
                                    i <= emit@.len(),
                                    rk@.len() == i,
                                    emitv == emit_table_view(emit@),
                                    forall|j: int|
                                        0 <= j < emitv.len() ==> (key_col as int) < (
                                        #[trigger] emitv[j]).1.len(),
                                    forall|j: int|
                                        0 <= j < i ==> #[trigger] rk@[j] == (
                                            emitv[j].0,
                                            emitv[j].1[key_col as int],
                                        ),
                                decreases emit@.len() - i,
                            {
                                assert(emitv[i as int].1 == emit@[i as int].1@);
                                rk.push((emit[i].0, emit[i].1[key_col]));
                                i = i + 1;
                            }
                            self.replay_key = Option::Some(rk);
                            proof {
                                assert(self@.replay_key->Some_0 =~= replay_key_for(
                                    e,
                                    from,
                                    key_col,
                                ));
                            }
                        },
                    }
                }
                let ghost rk_new = if oldv.replay_key is Some {
                    oldv.replay_key->Some_0
                } else {
                    replay_key_for(e, from, key_col)
                };
                proof {
                    assert(self@.replay_key == Option::Some(rk_new));
                    assert(self@.pieces == oldv.pieces);
                    lemma_replay_key_wf(oldv, from, key_col);
                }
                // store this replay piece; there better be only one replay
                // piece from each ancestor for a key
                let n: usize = match &self.emit {
                    Emit::AllFrom(_) => nshards,
                    Emit::Project { emit, .. } => emit.len(),
                };
                assert(n as int == n_needed(e, nshards));
                let ghost b = buffered_pieces(oldv, from, kv, rsv);
                let ghost postv = UnionView {
                    emit: e,
                    replay_key: Option::Some(rk_new),
                    pieces: oldv.pieces,
                };
                proof {
                    assert(postv.wf());
                    assert(b == buffered_pieces(postv, from, kv, rsv));
                }
                match value_key_position(&self.replay_pieces, &key_val) {
                    Option::Some(pi) => {
                        let ghost pv0 = self@.pieces;
                        proof {
                            lemma_key_index_unique(pv0, pi as int);
                            assert(key_index(pv0, kv) == pi as int);
                        }
                        let ghost oinner = oldv.pieces[pi as int].1;
                        let ghost prevvec = self.replay_pieces@;
                        let mut entry = self.replay_pieces.remove(pi);
                        proof {
                            assert(entry == prevvec[pi as int]);
                            assert(pv0[pi as int] == (entry.0@, inner_pieces_view(entry.1@)));
                            assert(entry.0@ == kv && inner_pieces_view(entry.1@) == oinner);
                        }
                        let ghost einner0 = entry.1@;
                        entry.1.push((from, rs));
                        proof {
                            assert(inner_pieces_view(entry.1@) =~= oinner.push((from, rsv)));
                            assert(b =~= pv0.update(pi as int, (kv, oinner.push((from, rsv)))));
                            assert(distinct_keys(b));
                            lemma_key_index_unique(b, pi as int);
                            assert(assoc_get(b, kv) == oinner.push((from, rsv)));
                        }
                        if entry.1.len() == n {
                            proof {
                                assert(pieces_view(self.replay_pieces@) =~= pv0.remove(pi as int));
                                lemma_remove_keeps_wf(postv, pi as int);
                                assert(b.remove(key_index(b, kv)) =~= pv0.remove(pi as int));
                                lemma_inner_input_ok(postv, pi as int, from, rsv);
                            }
                            let out = self.release(entry.1);
                            RawProcessingResult::ReplayPiece(out)
                        } else {
                            self.replay_pieces.insert(pi, entry);
                            proof {
                                assert(self@.pieces =~= b);
                                lemma_buffer_keeps_wf(postv, from, kv, rsv);
                            }
                            RawProcessingResult::Captured
                        }
                    },
                    Option::None => {
                        proof {
                            assert(!has_key(oldv.pieces, kv));
                            assert(b =~= oldv.pieces.push((kv, seq![(from, rsv)])));
                            lemma_key_index_unique(b, oldv.pieces.len() as int);
                            assert(assoc_get(b, kv) =~= seq![(from, rsv)]);
                        }
                        let mut inner: Vec<(NodeId, Vec<Record>)> = Vec::new();
                        inner.push((from, rs));
                        proof {
                            assert(inner_pieces_view(inner@) =~= seq![(from, rsv)]);
                        }
                        if n == 1 {
                            proof {
                                assert(b.remove(key_index(b, kv)) =~= oldv.pieces);
                            }
                            let out = self.release(inner);
                            RawProcessingResult::ReplayPiece(out)
                        } else {
                            self.replay_pieces.push((key_val, inner));
                            proof {
                                assert(self@.pieces =~= b);
                                lemma_buffer_keeps_wf(postv, from, kv, rsv);
                            }
                            RawProcessingResult::Captured
                        }
                    },
                }
            },
        }
    }

    /// Populate the cached per-ancestor field counts on first connection to
    /// the graph.  The schema lookup is handed in as plain pairs of ancestor
    /// identifier and field count; only configured ancestors are cached.
    pub fn on_connected(&mut self, fields: &Vec<(NodeId, usize)>)
        requires
            old(self)@.wf(),
            distinct_keys(fields@),
            match old(self)@.emit {
                EmitView::AllFrom(_) => true,
                EmitView::Project { emit, .. } => forall|i: int|
                    0 <= i < emit.len() ==> has_key(fields@, (#[trigger] emit[i]).0),
            },
        ensures
            final(self)@.wf(),
            final(self)@.replay_key == old(self)@.replay_key,
            final(self)@.pieces == old(self)@.pieces,
            match old(self)@.emit {
                EmitView::AllFrom(_) => final(self)@.emit == old(self)@.emit,
                EmitView::Project { emit, .. } => final(self)@.emit == (EmitView::Project {
                    emit,
                    cols: Seq::new(
                        emit.len() as nat,
                        |i: int| (emit[i].0, assoc_get(fields@, emit[i].0)),
                    ),
                }),
            },
    {
        let ghost oldv = self@;
        match &mut self.emit {
            Emit::AllFrom(_) => {},
            Emit::Project { emit, cols } => {
                let ghost emitv = emit_table_view(emit@);
                let mut c: Vec<(NodeId, usize)> = Vec::new();
                let mut i: usize = 0;
                while i < emit.len()
                    invariant
                        i <= emit@.len(),
                        c@.len() == i,
                        emitv == emit_table_view(emit@),
                        distinct_keys(fields@),
                        forall|t: int|
                            0 <= t < emitv.len() ==> has_key(fields@, (#[trigger] emitv[t]).0),
                        forall|t: int|
                            0 <= t < i ==> #[trigger] c@[t] == (
                                emitv[t].0,
                                assoc_get(fields@, emitv[t].0),
                            ),
                    decreases emit@.len() - i,
                {
                    let key = emit[i].0;
                    assert(emitv[i as int].0 == key);
                    let mut n: usize = 0;
                    match node_key_position(fields, key) {
                        Option::Some(p) => {
                            proof {
                                lemma_key_index_unique(fields@, p as int);
                            }
                            n = fields[p].1;
                        },
                        Option::None => {
                            proof {
                                let w = choose|t: int|
                                    0 <= t < fields@.len() && (#[trigger] fields@[t]).0 == key;
                                assert(false);
                            }
                        },
                    }
                    c.push((key, n));
                    i = i + 1;
                }
                *cols = c;
                proof {
                    assert(cols@ =~= Seq::new(
                        emitv.len(),
                        |t: int| (emitv[t].0, assoc_get(fields@, emitv[t].0)),
                    ));
                }
            },
        }
        proof {
            match self@.emit {
                EmitView::AllFrom(_) => {},
                EmitView::Project { emit, cols } => {
                    assert(distinct_keys(cols)) by {
                        assert(forall|t: int|
                            0 <= t < cols.len() ==> (#[trigger] cols[t]).0 == emit[t].0);
                    }
                    assert forall|t: int| 0 <= t < cols.len() implies has_key(
                        emit,
                        (#[trigger] cols[t]).0,
                    ) by {
                        assert(emit[t].0 == cols[t].0);
                    }
                },
            }
        }
    }

    /// Rewrite every ancestor identifier through the supplied old-to-new
    /// mapping at migration commit time.  The rewrite must not collide two
    /// ancestors onto one identifier; an identifier without an entry in the
    /// mapping is kept.
    pub fn on_commit(&mut self, _you: NodeId, remap: &Vec<(NodeId, NodeId)>)
        requires
            old(self)@.wf(),
            // commit happens on placement into a domain, before any replay
            // traffic has established a key
            old(self)@.replay_key is None,
            distinct_keys(remap@),
            match old(self)@.emit {
                EmitView::AllFrom(p) => has_key(remap@, p),
                EmitView::Project { emit, .. } => forall|i: int, j: int|
                    0 <= i < j < emit.len() ==> remapped((#[trigger] emit[i]).0, remap@)
                        != remapped((#[trigger] emit[j]).0, remap@),
            },
        ensures
            final(self)@.wf(),
            final(self)@.replay_key == old(self)@.replay_key,
            final(self)@.pieces == old(self)@.pieces,
            match old(self)@.emit {
                EmitView::AllFrom(p) => final(self)@.emit == EmitView::AllFrom(
                    assoc_get(remap@, p),
                ),
                EmitView::Project { emit, cols } => final(self)@.emit == (EmitView::Project {
                    emit: Seq::new(
                        emit.len() as nat,
                        |i: int| (remapped(emit[i].0, remap@), emit[i].1),
                    ),
                    cols: Seq::new(
                        cols.len() as nat,
                        |i: int| (remapped(cols[i].0, remap@), cols[i].1),
                    ),
                }),
            },
    {
        let ghost oldv = self@;
        match &mut self.emit {
            Emit::AllFrom(p) => {
                match node_key_position(remap, *p) {
                    Option::Some(t) => {
                        proof {
                            lemma_key_index_unique(remap@, t as int);
                        }
                        *p = remap[t].1;
                    },
                    Option::None => {
                        proof {
                            let w = choose|t: int|
                                0 <= t < remap@.len() && (#[trigger] remap@[t]).0 == oldv.emit->AllFrom_0;
                            assert(false);
                        }
                    },
                }
            },
            Emit::Project { emit, cols } => {
                let ghost emitv = emit_table_view(emit@);
                let ghost colsv = cols@;
                let mut e2: Vec<(NodeId, Vec<usize>)> = Vec::new();
                let mut i: usize = 0;
                while i < emit.len()
                    invariant
                        i <= emit@.len(),
                        e2@.len() == i,
                        emitv == emit_table_view(emit@),
                        distinct_keys(remap@),
                        forall|t: int|
                            0 <= t < i ==> (#[trigger] e2@[t]).0 == remapped(emitv[t].0, remap@)
                                && e2@[t].1@ == emitv[t].1,
                    decreases emit@.len() - i,
                {
                    let key = emit[i].0;
                    assert(emitv[i as int].0 == key && emitv[i as int].1 == emit@[i as int].1@);
                    let nk = remap_node(key, remap);
                    e2.push((nk, clone_cols(&emit[i].1)));
                    i = i + 1;
                }
                let mut c2: Vec<(NodeId, usize)> = Vec::new();
                let mut t: usize = 0;
                while t < cols.len()
                    invariant
                        t <= colsv.len(),
                        c2@.len() == t,
                        colsv == cols@,
                        distinct_keys(remap@),
                        forall|u: int|
                            0 <= u < t ==> #[trigger] c2@[u] == (
                                remapped(colsv[u].0, remap@),
                                colsv[u].1,
                            ),
                    decreases colsv.len() - t,
                {
                    let nk = remap_node(cols[t].0, remap);
                    c2.push((nk, cols[t].1));
                    t = t + 1;
                }
                *emit = e2;
                *cols = c2;
                proof {
                    assert(emit_table_view(emit@) =~= Seq::new(
                        emitv.len(),
                        |i: int| (remapped(emitv[i].0, remap@), emitv[i].1),
                    ));
                    assert(cols@ =~= Seq::new(
                        colsv.len(),
                        |i: int| (remapped(colsv[i].0, remap@), colsv[i].1),
                    ));
                }
            },
        }
        proof {
            match oldv.emit {
                EmitView::AllFrom(_) => {},
                EmitView::Project { emit, cols } => {
                    match self@.emit {
                        EmitView::AllFrom(_) => {
                            assert(false);
                        },
                        EmitView::Project { emit: emit2, cols: cols2 } => {
                            assert forall|i: int| 0 <= i < emit2.len() implies strictly_increasing(
                                (#[trigger] emit2[i]).1,
                            ) by {
                                assert(emit2[i].1 == emit[i].1);
                                assert(strictly_increasing(emit[i].1));
                            }
                            assert(distinct_keys(emit2)) by {
                                assert(forall|i: int|
                                    0 <= i < emit2.len() ==> (#[trigger] emit2[i]).0 == remapped(
                                        emit[i].0,
                                        remap@,
                                    ));
                            }
                            assert(forall|i: int|
                                0 <= i < emit2.len() ==> (#[trigger] emit2[i]).1 == emit[i].1);
                            assert(distinct_keys(cols2)) by {
                                assert forall|i: int, j: int|
                                    0 <= i < j < cols2.len() implies (#[trigger] cols2[i]).0 != (
                                #[trigger] cols2[j]).0 by {
                                    let wi = key_index(emit, cols[i].0);
                                    let wj = key_index(emit, cols[j].0);
                                    assert(has_key(emit, cols[i].0) && has_key(emit, cols[j].0));
                                    assert(emit[wi].0 == cols[i].0 && emit[wj].0 == cols[j].0);
                                    assert(cols[i].0 != cols[j].0);
                                    assert(wi != wj);
                                    assert(remapped(emit[wi].0, remap@) != remapped(
                                        emit[wj].0,
                                        remap@,
                                    ));
                                }
                            }
                            assert forall|i: int| 0 <= i < cols2.len() implies has_key(
                                emit2,
                                (#[trigger] cols2[i]).0,
                            ) by {
                                let w = key_index(emit, cols[i].0);
                                assert(has_key(emit, cols[i].0));
                                assert(emit[w].0 == cols[i].0);
                                assert(emit2[w].0 == remapped(cols[i].0, remap@));
                            }
                        },
                    }
                },
            }
        }
    }

    /// Map an output column back to the (ancestor, ancestor-column) pairs it
    /// derives from, one per ancestor.
    pub fn resolve(&self, col: usize) -> (r: Option<Vec<(NodeId, usize)>>)
        requires
            self@.wf(),
            match self@.emit {
                EmitView::AllFrom(_) => true,
                EmitView::Project { emit, .. } => forall|i: int|
                    0 <= i < emit.len() ==> (col as int) < (#[trigger] emit[i]).1.len(),
            },
        ensures
            match self@.emit {
                EmitView::AllFrom(p) => r matches Some(v) && v@ =~= seq![(p, col)],
                EmitView::Project { emit, .. } => r matches Some(v) && v@.len() == emit.len()
                    && forall|i: int|
                    0 <= i < emit.len() ==> #[trigger] v@[i] == (
                        emit[i].0,
                        emit[i].1[col as int],
                    ),
            },
    {
        match &self.emit {
            Emit::AllFrom(p) => {
                let mut v: Vec<(NodeId, usize)> = Vec::new();
                v.push((*p, col));
                Option::Some(v)
            },
            Emit::Project { emit, .. } => {
                let ghost emitv = emit_table_view(emit@);
                let mut v: Vec<(NodeId, usize)> = Vec::new();
                let mut i: usize = 0;
                while i < emit.len()
                    invariant
                        i <= emit@.len(),
                        v@.len() == i,
                        emitv == emit_table_view(emit@),
                        forall|t: int|
                            0 <= t < emitv.len() ==> (col as int) < (#[trigger] emitv[t]).1.len(),
                        forall|t: int|
                            0 <= t < i ==> #[trigger] v@[t] == (
                                emitv[t].0,
                                emitv[t].1[col as int],
                            ),
                    decreases emit@.len() - i,
                {
                    assert(emitv[i as int].1 == emit@[i as int].1@);
                    v.push((emit[i].0, emit[i].1[col]));
                    i = i + 1;
                }
                Option::Some(v)
            },
        }
    }

    /// As `resolve`, but always returning one (ancestor, column) pair per
    /// ancestor, with the column wrapped for variants that could omit it.
    pub fn parent_columns(&self, col: usize) -> (r: Vec<(NodeId, Option<usize>)>)
        requires
            self@.wf(),
            match self@.emit {
                EmitView::AllFrom(_) => true,
                EmitView::Project { emit, .. } => forall|i: int|
                    0 <= i < emit.len() ==> (col as int) < (#[trigger] emit[i]).1.len(),
            },
        ensures
            match self@.emit {
                EmitView::AllFrom(p) => r@ =~= seq![(p, Option::Some(col))],
                EmitView::Project { emit, .. } => r@.len() == emit.len() && forall|i: int|
                    0 <= i < emit.len() ==> #[trigger] r@[i] == (
                        emit[i].0,
                        Option::Some(emit[i].1[col as int]),
                    ),
            },
    {
        match &self.emit {
            Emit::AllFrom(p) => {
                let mut v: Vec<(NodeId, Option<usize>)> = Vec::new();
                v.push((*p, Option::Some(col)));
                v
            },
            Emit::Project { emit, .. } => {
                let ghost emitv = emit_table_view(emit@);
                let mut v: Vec<(NodeId, Option<usize>)> = Vec::new();
                let mut i: usize = 0;
                while i < emit.len()
                    invariant
                        i <= emit@.len(),
                        v@.len() == i,
                        emitv == emit_table_view(emit@),
                        forall|t: int|
                            0 <= t < emitv.len() ==> (col as int) < (#[trigger] emitv[t]).1.len(),
                        forall|t: int|
                            0 <= t < i ==> #[trigger] v@[t] == (
                                emitv[t].0,
                                Option::Some(emitv[t].1[col as int]),
                            ),
                    decreases emit@.len() - i,
                {
                    assert(emitv[i as int].1 == emit@[i as int].1@);
                    v.push((emit[i].0, Option::Some(emit[i].1[col])));
                    i = i + 1;
                }
                v
            },
        }
    }

    /// A deterministic, human-readable rendering of the policy; ancestors
    /// are listed in a stable sorted order, whatever order the table holds
    /// them in.
    pub fn description(&self) -> (r: String)
        requires
            self@.wf(),
        ensures
            match self@.emit {
                EmitView::AllFrom(_) => r@ == "\u{228d}"@,
                EmitView::Project { emit, .. } => r@ == entries_str(sort_by_node(emit)),
            },
    {
        match &self.emit {
            Emit::AllFrom(_) => String::from_str("\u{228d}"),
            Emit::Project { emit, .. } => {
                let ghost emitv = emit_table_view(emit@);
                // list the ancestors in sorted order
                let mut sorted: Vec<(NodeId, Vec<usize>)> = Vec::new();
                let mut i: usize = 0;
                proof {
                    assert(emitv.subrange(0, 0) =~= Seq::<(NodeId, Seq<usize>)>::empty());
                    assert(emit_table_view(sorted@) =~= sort_by_node(emitv.subrange(0, 0)));
                }
                while i < emit.len()
                    invariant
                        i <= emit@.len(),
                        emitv == emit_table_view(emit@),
                        emit_table_view(sorted@) == sort_by_node(emitv.subrange(0, i as int)),
                    decreases emit@.len() - i,
                {
                    let ghost sortv = emit_table_view(sorted@);
                    let ghost e = emitv[i as int];
                    assert(emitv[i as int].0 == emit@[i as int].0 && emitv[i as int].1
                        == emit@[i as int].1@);
                    let key = emit[i].0;
                    assert(key == e.0);
                    let mut p: usize = 0;
                    while p < sorted.len() && !node_le_exec(key, sorted[p].0)
                        invariant
                            p <= sorted@.len(),
                            sortv == emit_table_view(sorted@),
                            key == e.0,
                            forall|q: int|
                                0 <= q < p ==> !node_le(e.0, (#[trigger] sortv[q]).0),
                        decreases sorted@.len() - p,
                    {
                        assert(sortv[p as int].0 == sorted@[p as int].0);
                        p = p + 1;
                    }
                    proof {
                        assert(p < sorted@.len() ==> node_le(e.0, sortv[p as int].0));
                        lemma_sorted_insert_at(sortv, e, p as int);
                    }
                    sorted.insert(p, (emit[i].0, clone_cols(&emit[i].1)));
                    proof {
                        assert(emit_table_view(sorted@) =~= sortv.insert(p as int, e));
                        assert(emitv.subrange(0, i + 1).drop_last() =~= emitv.subrange(
                            0,
                            i as int,
                        ));
                        assert(emitv.subrange(0, i + 1).last() == e);
                    }
                    i = i + 1;
                }
                proof {
                    assert(emitv.subrange(0, emitv.len() as int) =~= emitv);
                }
                let ghost finalv = sort_by_node(emitv);
                // render the sorted entries
                let mut out = String::new();
                let mut t: usize = 0;
                proof {
                    assert(out@ =~= entries_str(emit_table_view(sorted@).subrange(0, 0)));
                }
                while t < sorted.len()
                    invariant
                        t <= sorted@.len(),
                        emit_table_view(sorted@) == finalv,
                        out@ == entries_str(finalv.subrange(0, t as int)),
                    decreases sorted@.len() - t,
                {
                    let ghost sv = finalv.subrange(0, t as int);
                    if t > 0 {
                        out.append(" \u{22c3} ");
                    }
                    let ns = sorted[t].0.render();
                    out.append(ns.as_str());
                    out.append(":[");
                    let cols = &sorted[t].1;
                    proof {
                        assert(finalv[t as int].0 == sorted@[t as int].0 && finalv[t as int].1
                            == sorted@[t as int].1@);
                    }
                    let mut u: usize = 0;
                    let mut cstr = String::new();
                    proof {
                        assert(cols@.subrange(0, 0) =~= Seq::<usize>::empty());
                        assert(cstr@ =~= cols_str(cols@.subrange(0, 0)));
                    }
                    while u < cols.len()
                        invariant
                            u <= cols@.len(),
                            cstr@ == cols_str(cols@.subrange(0, u as int)),
                        decreases cols@.len() - u,
                    {
                        if u > 0 {
                            cstr.append(", ");
                        }
                        let d = dec_string(cols[u]);
                        cstr.append(d.as_str());
                        proof {
                            assert(cols@.subrange(0, u + 1).drop_last() =~= cols@.subrange(
                                0,
                                u as int,
                            ));
                            assert(cols@.subrange(0, u + 1).last() == cols@[u as int]);
                            if u == 0 {
                                assert(cols@.subrange(0, 1).len() == 1);
                                assert(cols@.subrange(0, 1)[0] == cols@[0]);
                                assert(cstr@ =~= cols_str(cols@.subrange(0, 1)));
                            } else {
                                assert(cstr@ =~= cols_str(cols@.subrange(0, u + 1)));
                            }
                        }
                        u = u + 1;
                    }
                    proof {
                        assert(cols@.subrange(0, cols@.len() as int) =~= cols@);
                    }
                    out.append(cstr.as_str());
                    out.append("]");
                    proof {
                        assert(finalv.subrange(0, t + 1).drop_last() =~= sv);
                        assert(finalv.subrange(0, t + 1).last() == finalv[t as int]);
                        if t == 0 {
                            assert(finalv.subrange(0, 1).len() == 1);
                            assert(finalv.subrange(0, 1)[0] == finalv[0]);
                            assert(out@ =~= entry_str(finalv[0]));
                            assert(out@ =~= entries_str(finalv.subrange(0, 1)));
                        } else {
                            assert(out@ =~= entries_str(sv) + " \u{22c3} "@ + entry_str(
                                finalv[t as int],
                            ));
                            assert(out@ =~= entries_str(finalv.subrange(0, t + 1)));
                        }
                    }
                    t = t + 1;
                }
                proof {
                    assert(finalv.subrange(0, finalv.len() as int) =~= finalv);
                }
                out
            },
        }
    }

    /// This operator never materializes state of its own.
    pub fn should_materialize(&self) -> (r: bool)
        ensures
            !r,
    {
        false
    }

    /// This operator never issues lookups against other state.
    pub fn will_query(&self, _materialized: bool) -> (r: bool)
        ensures
            !r,
    {
        false
    }

    /// This operator holds no indexable state, so it suggests no indexes.
    pub fn suggest_indexes(&self, _you: NodeId) -> (r: Vec<(NodeId, Vec<usize>)>)
        ensures
            r@.len() == 0,
    {
        Vec::new()
    }
}

/// Projection order: a projected row presents exactly the configured
/// columns of the source row, in their configured order.
pub proof fn lemma_projection_order(row: Seq<ValueV>, cols: Seq<usize>)
    ensures
        project_row(row, cols).len() == cols.len(),
        forall|i: int|
            0 <= i < cols.len() ==> project_row(row, cols)[i] == row[#[trigger] cols[i] as int],
{
}

/// Projection order, for a whole batch: the regular transform of a
/// projecting union keeps the batch's length, order and signs, and projects
/// each row onto the ancestor's configured columns.
pub proof fn lemma_transform_projects(e: EmitView, from: NodeId, rs: Seq<RecordV>)
    requires
        e is Project,
    ensures
        transform_batch(e, from, rs).len() == rs.len(),
        forall|i: int|
            0 <= i < rs.len() ==> #[trigger] transform_batch(e, from, rs)[i] == (RecordV {
                pos: rs[i].pos,
                row: project_row(rs[i].row, assoc_get(e->Project_emit, from)),
            }),
{
}

/// Purity: the regular transform is a function of the emit policy and the
/// input batch alone, so two identically configured instances transform an
/// identical batch identically, whatever their replay state.
pub proof fn lemma_purity(a: UnionView, b: UnionView, from: NodeId, rs: Seq<RecordV>)
    requires
        a.emit == b.emit,
    ensures
        transform_batch(a.emit, from, rs) == transform_batch(b.emit, from, rs),
{
}

/// Leak-forwarding: the regular transform distributes over concatenation,
/// so records appended to a buffered piece contribute exactly their own
/// transforms, after the piece's original ones, to the key's released
/// output.
pub proof fn lemma_leak_forward_once(
    e: EmitView,
    from: NodeId,
    piece: Seq<RecordV>,
    leaked: Seq<RecordV>,
)
    ensures
        transform_batch(e, from, piece + leaked) == transform_batch(e, from, piece)
            + transform_batch(e, from, leaked),
{
    match e {
        EmitView::AllFrom(_) => {},
        EmitView::Project { emit, .. } => {
            assert(transform_batch(e, from, piece + leaked) =~= transform_batch(e, from, piece)
                + transform_batch(e, from, leaked));
        },
    }
}

/// Replay completion: removing a key's buffer on release leaves no piece
/// behind for it, so releasing the key again would need a completely fresh
/// set of pieces.
pub proof fn lemma_release_clears_key(
    s: Seq<(ValueV, Seq<(NodeId, Seq<RecordV>)>)>,
    kv: ValueV,
)
    requires
        distinct_keys(s),
        has_key(s, kv),
    ensures
        !has_key(s.remove(key_index(s, kv)), kv),
{
    let pi = key_index(s, kv);
    let b = s.remove(pi);
    assert(forall|i: int|
        0 <= i < b.len() ==> #[trigger] b[i] == (if i < pi {
            s[i]
        } else {
            s[i + 1]
        }));
    assert forall|i: int| 0 <= i < b.len() implies (#[trigger] b[i]).0 != kv by {
        if i < pi {
            assert(s[i].0 != s[pi].0);
        } else {
            assert(s[pi].0 != s[i + 1].0);
        }
        assert(s[pi].0 == kv);
    }
}

/// A key's buffered-piece count never exceeds the ancestor count of a
/// well-formed projecting union: each buffered piece belongs to a distinct
/// configured ancestor.
pub proof fn lemma_piece_count_bounded(v: UnionView, i: int)
    requires
        v.wf(),
        v.emit is Project,
        0 <= i < v.pieces.len(),
    ensures
        v.pieces[i].1.len() <= v.emit->Project_emit.len(),
{
    broadcast use vstd::seq_lib::seq_to_set_is_finite;
    broadcast use vstd::set::group_set_axioms;

    let emit = v.emit->Project_emit;
    let inner = v.pieces[i].1;
    let ikeys = inner.map_values(|p: (NodeId, Seq<RecordV>)| p.0);
    let ekeys = emit.map_values(|p: (NodeId, Seq<usize>)| p.0);
    assert(ikeys.no_duplicates()) by {
        assert(forall|a: int|
            0 <= a < inner.len() ==> #[trigger] ikeys[a] == inner[a].0);
    }
    assert(ekeys.no_duplicates()) by {
        assert(forall|a: int| 0 <= a < emit.len() ==> #[trigger] ekeys[a] == emit[a].0);
    }
    ikeys.unique_seq_to_set();
    ekeys.unique_seq_to_set();
    assert(ikeys.to_set().subset_of(ekeys.to_set())) by {
        assert forall|x: NodeId| ikeys.to_set().contains(x) implies ekeys.to_set().contains(
            x,
        ) by {
            let a = choose|a: int| 0 <= a < ikeys.len() && ikeys[a] == x;
            assert(inner[a].0 == x);
            assert(has_key(emit, x));
            let w = key_index(emit, x);
            assert(ekeys[w] == x);
            assert(ekeys.contains(x));
        }
    }
    vstd::set_lib::lemma_len_subset(ikeys.to_set(), ekeys.to_set());
}

} // verus!
