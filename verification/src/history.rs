//! The modification order of an address: its records in the order of the
//! log, after the initial record.

use crate::index::nth;
use crate::level::Level;
use crate::record::Record;
use vstd::prelude::*;

verus! {

/// The records that wrote `addr`.
pub open spec fn writes_to(addr: usize) -> spec_fn(Record) -> bool {
    |r: Record| r.address == addr
}

/// The SeqCst records that wrote `addr`.
pub open spec fn seq_cst_writes_to(addr: usize) -> spec_fn(Record) -> bool {
    |r: Record| r.address == addr && r.level == Level::SeqCst
}

/// The SeqCst records that wrote `addr` under a ticket below `bound`.
pub open spec fn seq_cst_writes_below(addr: usize, bound: usize) -> spec_fn(Record) -> bool {
    |r: Record| r.address == addr && r.level == Level::SeqCst && r.global < bound
}

/// The records with a ticket of at least `floor`.
pub open spec fn from_ticket(floor: usize) -> spec_fn(Record) -> bool {
    |r: Record| r.global >= floor
}

/// The greatest ticket among the records of `s`, zero where `s` is empty.
pub open spec fn top_ticket(s: Seq<Record>) -> usize
    decreases s.len(),
{
    if s.len() == 0 {
        0
    } else {
        let rest = top_ticket(s.drop_last());
        if s.last().global >= rest {
            s.last().global
        } else {
            rest
        }
    }
}

/// The tickets of `log` rise strictly.
pub open spec fn rising(log: Seq<Record>) -> bool {
    forall|i: int, j: int|
        0 <= i < j < log.len() ==> (#[trigger] log[i]).global < (#[trigger] log[j]).global
}

/// The modification order of `addr`: its initial record, then the records of
/// the log that wrote it, in log order.
pub open spec fn history(genesis: Seq<Record>, log: Seq<Record>, addr: usize) -> Seq<Record> {
    seq![nth(genesis, addr)] + log.filter(writes_to(addr))
}

/// The records of each thread stand in `log` in the order of the thread's
/// own counter.
pub open spec fn in_program_order(log: Seq<Record>) -> bool {
    forall|i: int, j: int|
        0 <= i < j < log.len() && (#[trigger] log[i]).thread == (#[trigger] log[j]).thread
            ==> log[i].thread_seq < log[j].thread_seq
}

/// Every record of `addr` that continues a release sequence follows a
/// record that is not Relaxed.
pub open spec fn chained(genesis: Seq<Record>, log: Seq<Record>, addr: usize) -> bool {
    forall|k: int|
        0 < k < history(genesis, log, addr).len() && (#[trigger] history(
            genesis,
            log,
            addr,
        )[k]).release_chain ==> history(genesis, log, addr)[k - 1].level != Level::Relaxed
}

/// No record of `s` has a ticket above the greatest.
pub proof fn lemma_top_ticket_bounds(s: Seq<Record>, i: int)
    requires
        0 <= i < s.len(),
    ensures
        s[i].global <= top_ticket(s),
    decreases s.len(),
{
    if i < s.len() - 1 {
        lemma_top_ticket_bounds(s.drop_last(), i);
    }
}

/// The greatest ticket is zero or the ticket of a record of `s`.
pub proof fn lemma_top_ticket_attained(s: Seq<Record>)
    ensures
        top_ticket(s) == 0 || exists|i: int| 0 <= i < s.len() && s[i].global == top_ticket(s),
    decreases s.len(),
{
    if s.len() > 0 {
        lemma_top_ticket_attained(s.drop_last());
        if s.last().global >= top_ticket(s.drop_last()) {
            assert(s[s.len() - 1].global == top_ticket(s));
        } else if top_ticket(s.drop_last()) != 0 {
            let i = choose|i: int|
                0 <= i < s.drop_last().len() && s.drop_last()[i].global == top_ticket(
                    s.drop_last(),
                );
            assert(s[i].global == top_ticket(s));
        }
    }
}

/// The greatest ticket after one more record.
pub proof fn lemma_top_ticket_push(s: Seq<Record>, r: Record)
    ensures
        top_ticket(s.push(r)) == if r.global >= top_ticket(s) {
            r.global
        } else {
            top_ticket(s)
        },
{
    assert(s.push(r).drop_last() =~= s);
}

/// A record appended to the log extends the modification order of its
/// address and of no other.
pub proof fn lemma_history_push(genesis: Seq<Record>, log: Seq<Record>, r: Record, addr: usize)
    ensures
        history(genesis, log.push(r), addr) == if r.address == addr {
            history(genesis, log, addr).push(r)
        } else {
            history(genesis, log, addr)
        },
{
    log.lemma_filter_push(r, writes_to(addr));
    if r.address == addr {
        assert(seq![nth(genesis, addr)] + log.filter(writes_to(addr)).push(r) =~= (seq![
            nth(genesis, addr),
        ] + log.filter(writes_to(addr))).push(r));
    }
}

/// Every record of a modification order is the initial record or a record
/// of the log that wrote the address.
pub proof fn lemma_history_members(genesis: Seq<Record>, log: Seq<Record>, addr: usize, k: int)
    requires
        0 <= k < history(genesis, log, addr).len(),
    ensures
        k == 0 ==> history(genesis, log, addr)[k] == nth(genesis, addr),
        k > 0 ==> history(genesis, log, addr)[k].address == addr && log.contains(
            history(genesis, log, addr)[k],
        ),
{
    if k > 0 {
        let f = log.filter(writes_to(addr));
        assert(history(genesis, log, addr)[k] == f[k - 1]);
        log.lemma_filter_pred(writes_to(addr), k - 1);
        assert(f.contains(f[k - 1]));
        log.lemma_filter_contains_rev(writes_to(addr), f[k - 1]);
    }
}

/// Where the tickets rise, the newest record of an address has the greatest
/// ticket of all records that wrote it.
pub proof fn lemma_newest_tops(genesis: Seq<Record>, log: Seq<Record>, addr: usize, i: int)
    requires
        rising(log),
        0 <= i < log.len(),
        log[i].address == addr,
    ensures
        log[i].global <= history(genesis, log, addr).last().global,
    decreases log.len(),
{
    let init = log.drop_last();
    let r = log.last();
    assert(init.push(r) =~= log);
    lemma_history_push(genesis, init, r, addr);
    if r.address == addr {
        assert(history(genesis, log, addr).last() == r);
        if i < log.len() - 1 {
            assert(log[i].global < log[log.len() - 1].global);
        }
    } else {
        assert(i < log.len() - 1);
        assert(rising(init)) by {
            assert forall|a: int, b: int| 0 <= a < b < init.len() implies (#[trigger] init[a]).global
                < (#[trigger] init[b]).global by {
                assert(log[a].global < log[b].global);
            }
        }
        assert(init[i] == log[i]);
        lemma_newest_tops(genesis, init, addr, i);
    }
}

} // verus!
