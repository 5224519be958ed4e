//! Retention pruning: dropping the rows inside the month window anchored at
//! the oldest row, all-or-nothing.
//!
//! The file dance — copy to a backup, write a replacement, atomically rename
//! it over the original, delete the backup — belongs to the caller; here the
//! replacement content is computed from the old content, exactly.

use crate::csvlog::{is_log_content, parse_log, spec_batch, encode_batch};
use crate::rows::{row_models, Row, RowModel};
use vstd::prelude::*;

verus! {

/// Whether `ts` lies in the retention window: within `months` months (of
/// thirty days each, as the log's pruning has always approximated) of the
/// oldest row's timestamp `t0`.
pub open spec fn in_window(t0: u64, months: u32, ts: u64) -> bool {
    t0 <= ts && ts <= t0 + months * 2592000
}

/// The rows that survive a prune of `months` months: exactly those outside
/// the window anchored at the first row's timestamp, in their original
/// order. The first row anchors the window, so it is always inside it.
pub open spec fn spec_retained(rs: Seq<RowModel>, months: u32) -> Seq<RowModel> {
    rs.filter(|r: RowModel| !in_window(rs[0].timestamp, months, r.timestamp))
}

/// Every element of a filtered sequence is an element of the original.
proof fn lemma_filter_members(s: Seq<RowModel>, pred: spec_fn(RowModel) -> bool, i: int)
    requires
        0 <= i < s.filter(pred).len(),
    ensures
        s.contains(s.filter(pred)[i]),
    decreases s.len(),
{
    reveal(Seq::filter);
    if s.len() > 0 {
        let out = s.filter(pred);
        let sub = s.drop_last().filter(pred);
        if pred(s.last()) && i == out.len() - 1 {
            assert(out[i] == s.last());
            assert(s[s.len() - 1] == s.last());
        } else {
            assert(out[i] == sub[i]);
            lemma_filter_members(s.drop_last(), pred, i);
            let j = choose|j: int| 0 <= j < s.drop_last().len() && s.drop_last()[j] == sub[i];
            assert(s[j] == sub[i]);
        }
    }
}

/// Pruning keeps a row if and only if its timestamp falls outside the
/// window, and keeps the survivors' fields and order untouched: every kept
/// row is an original row outside the window, and every original row
/// outside the window is kept.
pub proof fn lemma_retention_window(rs: Seq<RowModel>, months: u32)
    requires
        rs.len() > 0,
    ensures
        forall|i: int|
            0 <= i < spec_retained(rs, months).len() ==> !in_window(
                rs[0].timestamp,
                months,
                (#[trigger] spec_retained(rs, months)[i]).timestamp,
            ) && rs.contains(spec_retained(rs, months)[i]),
        forall|i: int|
            0 <= i < rs.len() && !in_window(rs[0].timestamp, months, (#[trigger] rs[i]).timestamp)
                ==> spec_retained(rs, months).contains(rs[i]),
        in_window(rs[0].timestamp, months, rs[0].timestamp),
{
    let pred = |r: RowModel| !in_window(rs[0].timestamp, months, r.timestamp);
    broadcast use vstd::seq_lib::group_filter_ensures;

    assert forall|i: int| 0 <= i < spec_retained(rs, months).len() implies !in_window(
        rs[0].timestamp,
        months,
        (spec_retained(rs, months)[i]).timestamp,
    ) && rs.contains(spec_retained(rs, months)[i]) by {
        assert(pred(rs.filter(pred)[i]));
        lemma_filter_members(rs, pred, i);
    }
    assert forall|i: int|
        0 <= i < rs.len() && !in_window(rs[0].timestamp, months, (rs[i]).timestamp) implies
        spec_retained(rs, months).contains(rs[i]) by {
        assert(pred(rs[i]));
        assert(rs.filter(pred).contains(rs[i]));
    }
}

/// The rows kept by one prune.
pub fn retain_rows(rows: &Vec<Row>, months: u32) -> (kept: Vec<Row>)
    requires
        rows@.len() > 0,
    ensures
        row_models(kept@) == spec_retained(row_models(rows@), months),
{
    let ghost rs = row_models(rows@);
    let ghost pred = |r: RowModel| !in_window(rs[0].timestamp, months, r.timestamp);
    let t0: u64 = rows[0].timestamp;
    let bound: u128 = t0 as u128 + months as u128 * 2592000;
    let mut kept: Vec<Row> = Vec::new();
    let mut i: usize = 0;
    proof {
        reveal(Seq::filter);
        assert(row_models(kept@) =~= rs.take(0).filter(pred));
    }
    while i < rows.len()
        invariant
            0 <= i <= rows@.len(),
            rs == row_models(rows@),
            pred == (|r: RowModel| !in_window(rs[0].timestamp, months, r.timestamp)),
            t0 == rs[0].timestamp,
            bound == t0 + months * 2592000,
            row_models(kept@) == rs.take(i as int).filter(pred),
        decreases rows.len() - i,
    {
        let r = &rows[i];
        let inside = t0 <= r.timestamp && r.timestamp as u128 <= bound;
        proof {
            assert(inside == in_window(t0, months, rs[i as int].timestamp));
            reveal(Seq::filter);
            assert(rs.take(i + 1).drop_last() =~= rs.take(i as int));
            assert(rs.take(i + 1).last() == rs[i as int]);
        }
        if !inside {
            let ghost prev = kept@;
            kept.push(Row {
                timestamp: r.timestamp,
                application: r.application.clone(),
                duration: r.duration,
            });
            proof {
                assert(row_models(kept@) =~= row_models(prev).push(rs[i as int]));
            }
        }
        i = i + 1;
    }
    proof {
        assert(rs.take(rs.len() as int) =~= rs);
    }
    kept
}

/// The replacement content of a prune of whole file content.
///
/// A file whose rows cannot be read back answers `None`: the prune reports
/// failure and the caller leaves the original file untouched. A file with
/// no data rows is left exactly as it is — the prune is a no-op that still
/// reports success. Otherwise the result is the well-formed log holding
/// exactly the surviving rows.
pub fn retain_log(content: &str, months: u32) -> (r: Option<String>)
    ensures
        forall|rs: Seq<RowModel>|
            is_log_content(content@, rs) ==> (r matches Some(out) && out@ == (if rs.len() == 0 {
                content@
            } else {
                spec_batch(spec_retained(rs, months), true)
            })),
        r is Some ==> exists|rs: Seq<RowModel>| is_log_content(content@, rs),
{
    match parse_log(content) {
        Option::None => None,
        Option::Some(rows) => {
            proof {
                assert(is_log_content(content@, row_models(rows@)));
            }
            if rows.len() == 0 {
                let out = content.to_owned();
                proof {
                    assert(row_models(rows@) =~= Seq::<RowModel>::empty());
                }
                return Some(out);
            }
            let kept = retain_rows(&rows, months);
            Some(encode_batch(&kept, true))
        },
    }
}

} // verus!
