//! The mathematical model of recovery: a left-to-right replay of the
//! log that stages writes, publishes them into the committed map at
//! each commit record, and remembers the end of the last commit as the
//! position the file must be cut back to.

use vstd::prelude::*;
use crate::bytes::{u32_from_be, varint};
use crate::wal::{
    SpecCommand, SpecDecode, record_at, spec_record, spec_payload, payload_fits,
    lemma_record_embedded,
};

verus! {

/// One staged write at the model level.
pub type SpecWrite = (Seq<char>, Seq<char>);

/// The state a replay ends in.
#[verifier::ext_equal]
pub struct ReplayResult {
    /// The committed key-value mapping.
    pub map: Map<Seq<char>, Seq<char>>,
    /// Writes staged after the last commit; never published.
    pub staged: Seq<SpecWrite>,
    /// The position the replay stopped at.
    pub pos: int,
    /// The end of the last commit record: the truncation target.
    pub commit_end: int,
}

/// Applies staged writes to a map, in order; a later write to the same
/// key overwrites an earlier one.
pub open spec fn apply_writes(m: Map<Seq<char>, Seq<char>>, ws: Seq<SpecWrite>) -> Map<
    Seq<char>,
    Seq<char>,
>
    decreases ws.len(),
{
    if ws.len() == 0 {
        m
    } else {
        apply_writes(m.insert(ws[0].0, ws[0].1), ws.drop_first())
    }
}

/// Replays the log from `pos` with the given staging state.
pub open spec fn replay_from(
    log: Seq<u8>,
    pos: int,
    staged: Seq<SpecWrite>,
    map: Map<Seq<char>, Seq<char>>,
    commit_end: int,
) -> ReplayResult
    decreases log.len() - pos,
{
    match record_at(log, pos) {
        SpecDecode::Rec { cmd, end } => {
            if pos < end <= log.len() {
                match cmd {
                    SpecCommand::Write { key, value } => replay_from(
                        log,
                        end,
                        staged.push((key, value)),
                        map,
                        commit_end,
                    ),
                    SpecCommand::Commit => replay_from(
                        log,
                        end,
                        Seq::empty(),
                        apply_writes(map, staged),
                        end,
                    ),
                }
            } else {
                ReplayResult { map, staged, pos, commit_end }
            }
        },
        _ => ReplayResult { map, staged, pos, commit_end },
    }
}

/// The replay of a whole log, from an empty committed state.
pub open spec fn replay(log: Seq<u8>) -> ReplayResult {
    replay_from(log, 0, Seq::empty(), Map::empty(), 0)
}

/// A record either ends within the log, after its start, or stops the
/// replay; this keeps `replay_from` within bounds.
pub proof fn lemma_replay_bounds(
    log: Seq<u8>,
    pos: int,
    staged: Seq<SpecWrite>,
    map: Map<Seq<char>, Seq<char>>,
    commit_end: int,
)
    requires
        0 <= pos <= log.len(),
        commit_end <= pos,
    ensures
        ({
            let r = replay_from(log, pos, staged, map, commit_end);
            &&& r.commit_end <= r.pos <= log.len()
            &&& r.commit_end == commit_end || r.commit_end > pos
            &&& r.commit_end >= commit_end
            &&& r.commit_end == commit_end ==> r.map == map
        }),
    decreases log.len() - pos,
{
    match record_at(log, pos) {
        SpecDecode::Rec { cmd, end } => {
            if pos < end <= log.len() {
                match cmd {
                    SpecCommand::Write { key, value } => {
                        lemma_replay_bounds(log, end, staged.push((key, value)), map, commit_end);
                    },
                    SpecCommand::Commit => {
                        lemma_replay_bounds(log, end, Seq::empty(), apply_writes(map, staged), end);
                    },
                }
            }
        },
        _ => {},
    }
}

/// The records of a sequence of writes, one `Write` record each.
pub open spec fn writes_records(ws: Seq<SpecWrite>) -> Seq<u8>
    decreases ws.len(),
{
    if ws.len() == 0 {
        Seq::empty()
    } else {
        spec_record(SpecCommand::Write { key: ws[0].0, value: ws[0].1 }) + writes_records(
            ws.drop_first(),
        )
    }
}

/// Every write of the sequence has an encodable payload.
pub open spec fn all_fit(ws: Seq<SpecWrite>) -> bool {
    forall|i: int|
        0 <= i < ws.len() ==> payload_fits(
            SpecCommand::Write { key: #[trigger] ws[i].0, value: ws[i].1 },
        )
}

/// The records of one committed group: its writes, then one commit.
pub open spec fn group_records(ws: Seq<SpecWrite>) -> Seq<u8> {
    writes_records(ws) + spec_record(SpecCommand::Commit)
}

/// The records of a sequence of committed groups.
pub open spec fn groups_records(gs: Seq<Seq<SpecWrite>>) -> Seq<u8>
    decreases gs.len(),
{
    if gs.len() == 0 {
        Seq::empty()
    } else {
        group_records(gs[0]) + groups_records(gs.drop_first())
    }
}

/// Every group's writes fit.
pub open spec fn all_groups_fit(gs: Seq<Seq<SpecWrite>>) -> bool {
    forall|i: int| 0 <= i < gs.len() ==> all_fit(#[trigger] gs[i])
}

/// The map that a sequence of committed groups folds to.
pub open spec fn fold_groups(
    m: Map<Seq<char>, Seq<char>>,
    gs: Seq<Seq<SpecWrite>>,
) -> Map<Seq<char>, Seq<char>>
    decreases gs.len(),
{
    if gs.len() == 0 {
        m
    } else {
        fold_groups(apply_writes(m, gs[0]), gs.drop_first())
    }
}

/// Truncation keeps a decoded record decodable: the decoder reads
/// nothing at or beyond the record's end.
pub proof fn lemma_record_at_take(log: Seq<u8>, k: int, pos: int)
    requires
        0 <= pos,
        k <= log.len(),
        record_at(log, pos) matches SpecDecode::Rec { cmd, end } && end <= k,
    ensures
        record_at(log.take(k), pos) == record_at(log, pos),
{
    let t = log.take(k);
    let len = u32_from_be(log[pos], log[pos + 1], log[pos + 2], log[pos + 3]) as int;
    assert(pos + 4 + len + 8 <= k);
    assert(t[pos] == log[pos] && t[pos + 1] == log[pos + 1] && t[pos + 2] == log[pos + 2] && t[pos
        + 3] == log[pos + 3]);
    assert(t.subrange(pos, pos + 4 + len) =~= log.subrange(pos, pos + 4 + len));
    assert(forall|i: int| 0 <= i < 8 ==> t[pos + 4 + len + i] == #[trigger] log[pos + 4 + len + i]);
    assert(t.subrange(pos + 4, pos + 4 + len) =~= log.subrange(pos + 4, pos + 4 + len));
}

/// Write records embedded at `pos` are staged, and the replay goes on
/// behind them with the staging extended.
pub proof fn lemma_replay_writes(
    log: Seq<u8>,
    pos: int,
    staged: Seq<SpecWrite>,
    map: Map<Seq<char>, Seq<char>>,
    commit_end: int,
    ws: Seq<SpecWrite>,
)
    requires
        0 <= pos,
        all_fit(ws),
        pos + writes_records(ws).len() <= log.len(),
        log.subrange(pos, pos + writes_records(ws).len() as int) =~= writes_records(ws),
    ensures
        replay_from(log, pos, staged, map, commit_end) == replay_from(
            log,
            pos + writes_records(ws).len(),
            staged + ws,
            map,
            commit_end,
        ),
    decreases ws.len(),
{
    if ws.len() == 0 {
        assert(staged + ws =~= staged);
    } else {
        let c0 = SpecCommand::Write { key: ws[0].0, value: ws[0].1 };
        let r0 = spec_record(c0);
        let wr = writes_records(ws);
        let rest = writes_records(ws.drop_first());
        assert(wr == r0 + rest);
        assert(log.subrange(pos, pos + r0.len() as int) =~= r0) by {
            assert(forall|i: int|
                0 <= i < r0.len() ==> #[trigger] log.subrange(pos, pos + r0.len() as int)[i]
                    == log.subrange(pos, pos + wr.len() as int)[i]);
        }
        lemma_record_embedded(log, pos, c0);
        let mid = pos + r0.len() as int;
        assert(log.subrange(mid, mid + rest.len() as int) =~= rest) by {
            assert(forall|i: int|
                0 <= i < rest.len() ==> #[trigger] log.subrange(mid, mid + rest.len() as int)[i]
                    == log.subrange(pos, pos + wr.len() as int)[i + r0.len()]);
        }
        assert(all_fit(ws.drop_first())) by {
            assert(forall|i: int|
                0 <= i < ws.drop_first().len() ==> #[trigger] ws.drop_first()[i] == ws[i + 1]);
        }
        lemma_replay_writes(log, mid, staged.push(ws[0]), map, commit_end, ws.drop_first());
        assert(staged.push(ws[0]) + ws.drop_first() =~= staged + ws);
    }
}

/// One committed group embedded at `pos`: the staged writes and the
/// group's writes are published together, and the commit boundary moves
/// to the end of the group.
pub proof fn lemma_replay_group(
    log: Seq<u8>,
    pos: int,
    staged: Seq<SpecWrite>,
    map: Map<Seq<char>, Seq<char>>,
    commit_end: int,
    ws: Seq<SpecWrite>,
)
    requires
        0 <= pos,
        all_fit(ws),
        pos + group_records(ws).len() <= log.len(),
        log.subrange(pos, pos + group_records(ws).len() as int) =~= group_records(ws),
    ensures
        replay_from(log, pos, staged, map, commit_end) == replay_from(
            log,
            pos + group_records(ws).len(),
            Seq::empty(),
            apply_writes(map, staged + ws),
            pos + group_records(ws).len(),
        ),
{
    let wr = writes_records(ws);
    let cr = spec_record(SpecCommand::Commit);
    let gr = group_records(ws);
    assert(log.subrange(pos, pos + wr.len() as int) =~= wr) by {
        assert(forall|i: int|
            0 <= i < wr.len() ==> #[trigger] log.subrange(pos, pos + wr.len() as int)[i]
                == log.subrange(pos, pos + gr.len() as int)[i]);
    }
    lemma_replay_writes(log, pos, staged, map, commit_end, ws);
    let mid = pos + wr.len() as int;
    assert(log.subrange(mid, mid + cr.len() as int) =~= cr) by {
        assert(forall|i: int|
            0 <= i < cr.len() ==> #[trigger] log.subrange(mid, mid + cr.len() as int)[i]
                == log.subrange(pos, pos + gr.len() as int)[i + wr.len()]);
    }
    assert(payload_fits(SpecCommand::Commit)) by {
        assert(varint(Seq::<u8>::empty().len()) =~= seq![0u8]);
    }
    lemma_record_embedded(log, mid, SpecCommand::Commit);
}

/// A run of committed groups embedded at `pos` folds into the map, and
/// the commit boundary lands at its end.
pub proof fn lemma_replay_groups(
    log: Seq<u8>,
    pos: int,
    map: Map<Seq<char>, Seq<char>>,
    commit_end: int,
    gs: Seq<Seq<SpecWrite>>,
)
    requires
        0 <= pos,
        all_groups_fit(gs),
        pos + groups_records(gs).len() <= log.len(),
        log.subrange(pos, pos + groups_records(gs).len() as int) =~= groups_records(gs),
    ensures
        replay_from(log, pos, Seq::empty(), map, commit_end) == replay_from(
            log,
            pos + groups_records(gs).len(),
            Seq::empty(),
            fold_groups(map, gs),
            if gs.len() == 0 {
                commit_end
            } else {
                pos + groups_records(gs).len()
            },
        ),
    decreases gs.len(),
{
    if gs.len() > 0 {
        let gr = group_records(gs[0]);
        let rest = groups_records(gs.drop_first());
        let gbs = groups_records(gs);
        assert(gbs == gr + rest);
        assert(log.subrange(pos, pos + gr.len() as int) =~= gr) by {
            assert(forall|i: int|
                0 <= i < gr.len() ==> #[trigger] log.subrange(pos, pos + gr.len() as int)[i]
                    == log.subrange(pos, pos + gbs.len() as int)[i]);
        }
        lemma_replay_group(log, pos, Seq::empty(), map, commit_end, gs[0]);
        assert(Seq::empty() + gs[0] =~= gs[0]);
        let mid = pos + gr.len() as int;
        assert(log.subrange(mid, mid + rest.len() as int) =~= rest) by {
            assert(forall|i: int|
                0 <= i < rest.len() ==> #[trigger] log.subrange(mid, mid + rest.len() as int)[i]
                    == log.subrange(pos, pos + gbs.len() as int)[i + gr.len()]);
        }
        assert(all_groups_fit(gs.drop_first())) by {
            assert(forall|i: int|
                0 <= i < gs.drop_first().len() ==> #[trigger] gs.drop_first()[i] == gs[i + 1]);
        }
        lemma_replay_groups(log, mid, apply_writes(map, gs[0]), mid, gs.drop_first());
        if gs.drop_first().len() == 0 {
            assert(fold_groups(map, gs) == apply_writes(map, gs[0]));
        }
    }
}

/// Applying one more write is one more insertion.
pub proof fn lemma_apply_writes_push(m: Map<Seq<char>, Seq<char>>, ws: Seq<SpecWrite>, w: SpecWrite)
    ensures
        apply_writes(m, ws.push(w)) == apply_writes(m, ws).insert(w.0, w.1),
    decreases ws.len(),
{
    if ws.len() == 0 {
        assert(ws.push(w)[0] == w);
        assert(ws.push(w).drop_first() =~= Seq::<SpecWrite>::empty());
        assert(apply_writes(m, ws.push(w)) == apply_writes(
            m.insert(w.0, w.1),
            Seq::<SpecWrite>::empty(),
        ));
        assert(apply_writes(m.insert(w.0, w.1), Seq::<SpecWrite>::empty()) == m.insert(w.0, w.1));
        assert(apply_writes(m, ws) == m);
    } else {
        assert(ws.push(w)[0] == ws[0]);
        assert(ws.push(w).drop_first() =~= ws.drop_first().push(w));
        let m1 = m.insert(ws[0].0, ws[0].1);
        assert(apply_writes(m, ws.push(w)) == apply_writes(m1, ws.drop_first().push(w)));
        assert(apply_writes(m, ws) == apply_writes(m1, ws.drop_first()));
        lemma_apply_writes_push(m1, ws.drop_first(), w);
    }
}

/// One more write is one more record.
pub proof fn lemma_writes_records_push(ws: Seq<SpecWrite>, w: SpecWrite)
    ensures
        writes_records(ws.push(w)) == writes_records(ws) + spec_record(
            SpecCommand::Write { key: w.0, value: w.1 },
        ),
    decreases ws.len(),
{
    let r = spec_record(SpecCommand::Write { key: w.0, value: w.1 });
    if ws.len() == 0 {
        assert(ws.push(w)[0] == w);
        assert(ws.push(w).drop_first() =~= Seq::<SpecWrite>::empty());
        assert(writes_records(ws.push(w)) == r + writes_records(Seq::<SpecWrite>::empty()));
        assert(writes_records(Seq::<SpecWrite>::empty()) =~= Seq::<u8>::empty());
        assert(writes_records(ws) =~= Seq::<u8>::empty());
        assert(r + Seq::<u8>::empty() =~= Seq::<u8>::empty() + r);
    } else {
        assert(ws.push(w)[0] == ws[0]);
        assert(ws.push(w).drop_first() =~= ws.drop_first().push(w));
        let r0 = spec_record(SpecCommand::Write { key: ws[0].0, value: ws[0].1 });
        assert(writes_records(ws.push(w)) == r0 + writes_records(ws.drop_first().push(w)));
        assert(writes_records(ws) == r0 + writes_records(ws.drop_first()));
        lemma_writes_records_push(ws.drop_first(), w);
        assert(r0 + (writes_records(ws.drop_first()) + r) =~= (r0 + writes_records(
            ws.drop_first(),
        )) + r);
    }
}

/// The latest staged value for a key, if any.
pub open spec fn last_write(ws: Seq<SpecWrite>, k: Seq<char>) -> Option<Seq<char>>
    decreases ws.len(),
{
    if ws.len() == 0 {
        None
    } else if ws.last().0 == k {
        Some(ws.last().1)
    } else {
        last_write(ws.drop_last(), k)
    }
}

/// Read-your-writes: looking a key up through the staged writes first
/// gives exactly what the key holds after the writes are applied.
pub proof fn lemma_last_write_apply(
    m: Map<Seq<char>, Seq<char>>,
    ws: Seq<SpecWrite>,
    k: Seq<char>,
)
    ensures
        ({
            let a = apply_writes(m, ws);
            match last_write(ws, k) {
                Some(v) => a.contains_key(k) && a[k] == v,
                None => a.contains_key(k) == m.contains_key(k) && (m.contains_key(k) ==> a[k]
                    == m[k]),
            }
        }),
    decreases ws.len(),
{
    if ws.len() > 0 {
        let w = ws.last();
        assert(ws.drop_last().push(w) =~= ws);
        lemma_apply_writes_push(m, ws.drop_last(), w);
        lemma_last_write_apply(m, ws.drop_last(), k);
    }
}

/// What recovery rebuilds from a crashed log. A log made of committed
/// groups, then pending writes that never reached their commit, then a
/// tail at which decoding fails, replays to exactly the fold of the
/// committed groups over the empty map; the pending writes stay
/// unpublished, and the truncation target is the end of the last group.
pub proof fn lemma_recovery_committed(
    gs: Seq<Seq<SpecWrite>>,
    pending: Seq<SpecWrite>,
    junk: Seq<u8>,
)
    requires
        all_groups_fit(gs),
        all_fit(pending),
        !(record_at(
            groups_records(gs) + writes_records(pending) + junk,
            (groups_records(gs).len() + writes_records(pending).len()) as int,
        ) is Rec),
    ensures
        ({
            let l = groups_records(gs) + writes_records(pending) + junk;
            let r = replay(l);
            &&& r.map == fold_groups(Map::empty(), gs)
            &&& r.commit_end == groups_records(gs).len()
            &&& r.staged == pending
            &&& r.pos == groups_records(gs).len() + writes_records(pending).len()
        }),
{
    let gb = groups_records(gs);
    let wr = writes_records(pending);
    let l = gb + wr + junk;
    let p0 = gb.len() + wr.len();
    assert(l.subrange(0, gb.len() as int) =~= gb);
    lemma_replay_groups(l, 0, Map::empty(), 0, gs);
    let m1 = fold_groups(Map::empty(), gs);
    assert(replay(l) == replay_from(l, gb.len() as int, Seq::empty(), m1, gb.len() as int));
    assert(l.subrange(gb.len() as int, p0 as int) =~= wr);
    lemma_replay_writes(l, gb.len() as int, Seq::empty(), m1, gb.len() as int, pending);
    assert(Seq::empty() + pending =~= pending);
    assert(replay(l) == replay_from(l, p0 as int, pending, m1, gb.len() as int));
}

/// Tail tolerance: bytes appended behind a fully committed log change
/// nothing, as long as they do not themselves decode as a record at the
/// old end of the log.
pub proof fn lemma_tail_tolerance(gs: Seq<Seq<SpecWrite>>, junk: Seq<u8>)
    requires
        all_groups_fit(gs),
        !(record_at(groups_records(gs) + junk, groups_records(gs).len() as int) is Rec),
    ensures
        replay(groups_records(gs) + junk).map == fold_groups(Map::empty(), gs),
        replay(groups_records(gs) + junk).commit_end == groups_records(gs).len(),
{
    assert(groups_records(gs) + writes_records(Seq::empty()) + junk =~= groups_records(gs) + junk);
    lemma_recovery_committed(gs, Seq::empty(), junk);
}

/// Cutting the log at the final commit boundary does not change what a
/// replay of it rebuilds.
pub proof fn lemma_replay_truncate(
    log: Seq<u8>,
    pos: int,
    staged: Seq<SpecWrite>,
    map: Map<Seq<char>, Seq<char>>,
    commit_end: int,
)
    requires
        0 <= commit_end <= pos <= log.len(),
    ensures
        ({
            let r = replay_from(log, pos, staged, map, commit_end);
            pos <= r.commit_end ==> {
                let rt = replay_from(log.take(r.commit_end), pos, staged, map, commit_end);
                rt.map == r.map && rt.commit_end == r.commit_end
            }
        }),
    decreases log.len() - pos,
{
    let r = replay_from(log, pos, staged, map, commit_end);
    lemma_replay_bounds(log, pos, staged, map, commit_end);
    if pos <= r.commit_end {
        let k = r.commit_end;
        let t = log.take(k);
        match record_at(log, pos) {
            SpecDecode::Rec { cmd, end } => {
                if pos < end <= log.len() {
                    match cmd {
                        SpecCommand::Write { key, value } => {
                            let staged2 = staged.push((key, value));
                            let sub = replay_from(log, end, staged2, map, commit_end);
                            lemma_replay_bounds(log, end, staged2, map, commit_end);
                            if r.commit_end == commit_end {
                                assert(pos == commit_end == k);
                                assert(t.len() == pos);
                                assert(record_at(t, pos) is Eof);
                                assert(sub.map == map);
                            } else {
                                assert(end <= k);
                                lemma_record_at_take(log, k, pos);
                                lemma_replay_truncate(log, end, staged2, map, commit_end);
                            }
                        },
                        SpecCommand::Commit => {
                            let map2 = apply_writes(map, staged);
                            let sub = replay_from(log, end, Seq::empty(), map2, end);
                            lemma_replay_bounds(log, end, Seq::empty(), map2, end);
                            assert(end <= k);
                            lemma_record_at_take(log, k, pos);
                            lemma_replay_truncate(log, end, Seq::empty(), map2, end);
                        },
                    }
                } else {
                    assert(pos == commit_end == k);
                    assert(record_at(t, pos) is Eof);
                }
            },
            _ => {
                assert(pos == commit_end == k);
                assert(record_at(t, pos) is Eof);
            },
        }
    }
}

/// Overriding union distributes out of a write application.
proof fn lemma_apply_writes_union(
    m0: Map<Seq<char>, Seq<char>>,
    x: Map<Seq<char>, Seq<char>>,
    ws: Seq<SpecWrite>,
)
    ensures
        apply_writes(m0.union_prefer_right(x), ws) == m0.union_prefer_right(apply_writes(x, ws)),
    decreases ws.len(),
{
    if ws.len() > 0 {
        assert(m0.union_prefer_right(x).insert(ws[0].0, ws[0].1) =~= m0.union_prefer_right(
            x.insert(ws[0].0, ws[0].1),
        ));
        lemma_apply_writes_union(m0, x.insert(ws[0].0, ws[0].1), ws.drop_first());
    }
}

/// The starting map only fills in behind the replayed writes: a replay
/// from `m0` is the replay from the empty map, with `m0` underneath.
pub proof fn lemma_replay_initial_map(
    log: Seq<u8>,
    pos: int,
    staged: Seq<SpecWrite>,
    m0: Map<Seq<char>, Seq<char>>,
    commit_end: int,
)
    ensures
        ({
            let r0 = replay_from(log, pos, staged, m0, commit_end);
            let re = replay_from(log, pos, staged, Map::empty(), commit_end);
            &&& r0.map == m0.union_prefer_right(re.map)
            &&& r0.staged == re.staged
            &&& r0.pos == re.pos
            &&& r0.commit_end == re.commit_end
        }),
    decreases log.len() - pos,
{
    match record_at(log, pos) {
        SpecDecode::Rec { cmd, end } => {
            if pos < end <= log.len() {
                match cmd {
                    SpecCommand::Write { key, value } => {
                        lemma_replay_initial_map(
                            log,
                            end,
                            staged.push((key, value)),
                            m0,
                            commit_end,
                        );
                    },
                    SpecCommand::Commit => {
                        let map1 = apply_writes(m0, staged);
                        let map2 = apply_writes(Map::empty(), staged);
                        lemma_replay_initial_map(log, end, Seq::empty(), map1, end);
                        lemma_replay_initial_map(log, end, Seq::empty(), map2, end);
                        let re = replay_from(log, end, Seq::empty(), Map::empty(), end);
                        assert(m0.union_prefer_right(Map::empty()) =~= m0);
                        lemma_apply_writes_union(m0, Map::empty(), staged);
                        assert(map1 == m0.union_prefer_right(map2));
                        assert(map1.union_prefer_right(re.map) =~= m0.union_prefer_right(
                            map2.union_prefer_right(re.map),
                        ));
                    },
                }
            } else {
                assert(m0.union_prefer_right(Map::empty()) =~= m0);
            }
        },
        _ => {
            assert(m0.union_prefer_right(Map::empty()) =~= m0);
        },
    }
}

/// Idempotent recovery: after a replay has fixed the committed map and
/// the truncation point, replaying the truncated log over that map
/// reproduces both, and asks for no further truncation.
pub proof fn lemma_recovery_idempotent(log: Seq<u8>)
    ensures
        ({
            let r = replay(log);
            let again = replay_from(log.take(r.commit_end), 0, Seq::empty(), r.map, 0);
            &&& again.map == r.map
            &&& again.commit_end == r.commit_end
            &&& again.commit_end == log.take(r.commit_end).len()
        }),
{
    let r = replay(log);
    lemma_replay_bounds(log, 0, Seq::empty(), Map::empty(), 0);
    let t = log.take(r.commit_end);
    lemma_replay_truncate(log, 0, Seq::empty(), Map::empty(), 0);
    let rt = replay_from(t, 0, Seq::empty(), Map::empty(), 0);
    assert(rt.map == r.map && rt.commit_end == r.commit_end);
    lemma_replay_initial_map(t, 0, Seq::empty(), r.map, 0);
    assert(r.map.union_prefer_right(r.map) =~= r.map);
}

} // verus!
