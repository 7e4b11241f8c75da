//! Consensus grouping.
//!
//! `group` partitions (identifier, canonical output) pairs into agreement
//! classes keyed by the canonical bytes, preserving the order in which
//! each distinct canonical value first appeared; each class records the
//! shared bytes and, in input order, the identifiers that produced them.
//! More than one class after grouping means the inputs disagree.

use vstd::prelude::*;
use crate::config::ConfigId;
use crate::events::ExecutionEvent;

verus! {

/// One agreement class: a canonical byte sequence and the ordered
/// identifiers that produced it. Immutable once built.
#[derive(Debug)]
pub struct ConsensusEntry {
    pub output: Vec<u8>,
    pub configs: Vec<ConfigId>,
}

/// The mathematical shape of one agreement class.
#[verifier::ext_equal]
pub ghost struct EntryView {
    pub output: Seq<u8>,
    pub configs: Seq<Seq<u8>>,
}

impl View for ConsensusEntry {
    type V = EntryView;

    open spec fn view(&self) -> EntryView {
        EntryView { output: self.output@, configs: self.configs@.map_values(|c: ConfigId| c@) }
    }
}

impl Clone for ConsensusEntry {
    fn clone(&self) -> (r: Self)
        ensures
            r@ == self@,
    {
        let mut configs: Vec<ConfigId> = Vec::new();
        let mut i: usize = 0;
        while i < self.configs.len()
            invariant
                0 <= i <= self.configs@.len(),
                configs@.len() == i,
                forall|k: int| 0 <= k < i ==> (#[trigger] configs@[k])@ == self.configs@[k]@,
            decreases self.configs@.len() - i,
        {
            configs.push(self.configs[i].clone());
            i += 1;
        }
        let r = ConsensusEntry { output: crate::bytes::clone_bytes(&self.output), configs };
        assert(r@.configs =~= self@.configs);
        assert(r@ =~~= self@);
        r
    }
}

/// The views of a list of identifiers.
pub open spec fn ids_of(ids: Seq<ConfigId>) -> Seq<Seq<u8>> {
    ids.map_values(|c: ConfigId| c@)
}

/// The views of a list of entries.
pub open spec fn entries_of(es: Seq<ConsensusEntry>) -> Seq<EntryView> {
    es.map_values(|e: ConsensusEntry| e@)
}

/// Add one (identifier, output) pair to the classes built so far: the
/// identifier joins the first class with the same canonical bytes, or a
/// new class is appended.
pub open spec fn insert_entry(groups: Seq<EntryView>, id: Seq<u8>, out: Seq<u8>) -> Seq<EntryView>
    decreases groups.len(),
{
    if groups.len() == 0 {
        seq![EntryView { output: out, configs: seq![id] }]
    } else if groups.first().output == out {
        seq![
            EntryView { output: groups.first().output, configs: groups.first().configs.push(id) },
        ] + groups.drop_first()
    } else {
        seq![groups.first()] + insert_entry(groups.drop_first(), id, out)
    }
}

/// The classes after the first `n` pairs.
pub open spec fn group_upto(ids: Seq<Seq<u8>>, outs: Seq<Seq<u8>>, n: int) -> Seq<EntryView>
    decreases n,
{
    if n <= 0 {
        Seq::<EntryView>::empty()
    } else {
        insert_entry(group_upto(ids, outs, n - 1), ids[n - 1], outs[n - 1])
    }
}

/// The partition of all pairs into agreement classes, in order of first
/// appearance of each canonical value.
pub open spec fn group_spec(ids: Seq<Seq<u8>>, outs: Seq<Seq<u8>>) -> Seq<EntryView> {
    group_upto(ids, outs, ids.len() as int)
}

/// Partition (identifier, canonical output) pairs into agreement classes.
pub fn group(ids: &Vec<ConfigId>, outputs: &Vec<Vec<u8>>) -> (r: Vec<ConsensusEntry>)
    requires
        ids@.len() == outputs@.len(),
    ensures
        entries_of(r@) == group_spec(ids_of(ids@), crate::normalize::seqs_of(outputs@)),
{
    let ghost gids = ids_of(ids@);
    let ghost gouts = crate::normalize::seqs_of(outputs@);
    let mut r: Vec<ConsensusEntry> = Vec::new();
    let mut i: usize = 0;
    while i < ids.len()
        invariant
            0 <= i <= ids@.len(),
            ids@.len() == outputs@.len(),
            gids == ids_of(ids@),
            gouts == crate::normalize::seqs_of(outputs@),
            entries_of(r@) == group_upto(gids, gouts, i as int),
        decreases ids@.len() - i,
    {
        let out = &outputs[i];
        let id = ids[i].clone();
        let ghost before = entries_of(r@);
        let mut m: usize = 0;
        let mut found = false;
        while m < r.len() && !found
            invariant
                0 <= m <= r@.len(),
                before == entries_of(r@),
                !found ==> forall|l: int| 0 <= l < m ==> before[l].output != out@,
                found ==> m < r@.len() && before[m as int].output == out@ && forall|l: int|
                    0 <= l < m ==> before[l].output != out@,
            decreases r@.len() - m + if found {
                0int
            } else {
                1int
            },
        {
            if crate::bytes::bytes_eq(&r[m].output, out) {
                found = true;
            } else {
                m += 1;
            }
        }
        if found {
            proof {
                lemma_insert_found(before, id@, out@, m as int);
            }
            let mut entry = r.remove(m);
            entry.configs.push(id);
            proof {
                assert(entry@.configs =~= before[m as int].configs.push(id@));
            }
            r.insert(m, entry);
            proof {
                assert(entries_of(r@) =~~= insert_entry(before, id@, out@));
            }
        } else {
            proof {
                lemma_insert_not_found(before, id@, out@);
            }
            let mut configs: Vec<ConfigId> = Vec::new();
            configs.push(id);
            let entry = ConsensusEntry { output: crate::bytes::clone_bytes(out), configs };
            proof {
                assert(entry@.configs =~= seq![id@]);
            }
            r.push(entry);
            proof {
                assert(entries_of(r@) =~~= insert_entry(before, id@, out@));
            }
        }
        i += 1;
    }
    proof {
        assert(entries_of(r@) == group_upto(gids, gouts, gids.len() as int));
    }
    r
}

proof fn lemma_insert_found(groups: Seq<EntryView>, id: Seq<u8>, out: Seq<u8>, m: int)
    requires
        0 <= m < groups.len(),
        groups[m].output == out,
        forall|l: int| 0 <= l < m ==> groups[l].output != out,
    ensures
        insert_entry(groups, id, out) == groups.update(
            m,
            EntryView { output: groups[m].output, configs: groups[m].configs.push(id) },
        ),
    decreases m,
{
    if m == 0 {
        assert(insert_entry(groups, id, out) =~~= groups.update(
            0,
            EntryView { output: groups[0].output, configs: groups[0].configs.push(id) },
        ));
    } else {
        assert(groups.first().output != out);
        lemma_insert_found(groups.drop_first(), id, out, m - 1);
        assert(insert_entry(groups, id, out) =~~= groups.update(
            m,
            EntryView { output: groups[m].output, configs: groups[m].configs.push(id) },
        ));
    }
}

proof fn lemma_insert_not_found(groups: Seq<EntryView>, id: Seq<u8>, out: Seq<u8>)
    requires
        forall|l: int| 0 <= l < groups.len() ==> groups[l].output != out,
    ensures
        insert_entry(groups, id, out) == groups.push(EntryView { output: out, configs: seq![id] }),
    decreases groups.len(),
{
    if groups.len() == 0 {
        assert(insert_entry(groups, id, out) =~~= groups.push(
            EntryView { output: out, configs: seq![id] },
        ));
    } else {
        assert(groups.first().output != out);
        lemma_insert_not_found(groups.drop_first(), id, out);
        assert(insert_entry(groups, id, out) =~~= groups.push(
            EntryView { output: out, configs: seq![id] },
        ));
    }
}

/// Whether some class carries this canonical output.
pub open spec fn has_output(groups: Seq<EntryView>, out: Seq<u8>) -> bool {
    exists|g: int| 0 <= g < groups.len() && (#[trigger] groups[g]).output == out
}

proof fn lemma_insert_has(groups: Seq<EntryView>, id: Seq<u8>, out: Seq<u8>)
    ensures
        has_output(insert_entry(groups, id, out), out),
        forall|o: Seq<u8>|
            has_output(groups, o) ==> #[trigger] has_output(insert_entry(groups, id, out), o),
    decreases groups.len(),
{
    let r = insert_entry(groups, id, out);
    if groups.len() == 0 {
        assert(r[0].output == out);
    } else if groups.first().output == out {
        assert(r[0].output == out);
        assert forall|o: Seq<u8>| has_output(groups, o) implies #[trigger] has_output(r, o) by {
            let g = choose|g: int| 0 <= g < groups.len() && (#[trigger] groups[g]).output == o;
            assert(r[g].output == o);
        }
    } else {
        lemma_insert_has(groups.drop_first(), id, out);
        let rr = insert_entry(groups.drop_first(), id, out);
        assert forall|o: Seq<u8>| has_output(groups, o) implies #[trigger] has_output(r, o) by {
            let g = choose|g: int| 0 <= g < groups.len() && (#[trigger] groups[g]).output == o;
            if g == 0 {
                assert(r[0].output == o);
            } else {
                assert(groups.drop_first()[g - 1].output == o);
                assert(has_output(groups.drop_first(), o));
                assert(has_output(rr, o));
                let g2 = choose|g2: int| 0 <= g2 < rr.len() && (#[trigger] rr[g2]).output == o;
                assert(r[g2 + 1].output == o);
            }
        }
        let g3 = choose|g3: int| 0 <= g3 < rr.len() && (#[trigger] rr[g3]).output == out;
        assert(r[g3 + 1].output == out);
    }
}

proof fn lemma_group_upto_has(ids: Seq<Seq<u8>>, outs: Seq<Seq<u8>>, n: int, i: int)
    requires
        0 <= i < n <= outs.len(),
        n <= ids.len(),
    ensures
        has_output(group_upto(ids, outs, n), outs[i]),
    decreases n,
{
    lemma_insert_has(group_upto(ids, outs, n - 1), ids[n - 1], outs[n - 1]);
    if i < n - 1 {
        lemma_group_upto_has(ids, outs, n - 1, i);
    }
}

proof fn lemma_group_all_equal(ids: Seq<Seq<u8>>, outs: Seq<Seq<u8>>, n: int)
    requires
        1 <= n <= outs.len(),
        n <= ids.len(),
        forall|i: int| 0 <= i < n ==> #[trigger] outs[i] == outs[0],
    ensures
        group_upto(ids, outs, n).len() == 1,
        group_upto(ids, outs, n)[0].output == outs[0],
    decreases n,
{
    if n == 1 {
        assert(group_upto(ids, outs, 1) == insert_entry(
            group_upto(ids, outs, 0),
            ids[0],
            outs[0],
        ));
        assert(group_upto(ids, outs, 1).len() == 1);
    } else {
        lemma_group_all_equal(ids, outs, n - 1);
        let prev = group_upto(ids, outs, n - 1);
        assert(prev.first().output == outs[n - 1]);
        let r = insert_entry(prev, ids[n - 1], outs[n - 1]);
        assert(r == seq![
            EntryView {
                output: prev.first().output,
                configs: prev.first().configs.push(ids[n - 1]),
            },
        ] + prev.drop_first());
        assert(r.len() == 1);
        assert(r[0].output == outs[0]);
    }
}

/// The classes partition by canonical output: a single class (or none)
/// means every entry agrees, and more than one class means two entries
/// disagree. This is how a grouped result decides a mismatch.
pub proof fn lemma_single_group_iff_agreement(ids: Seq<Seq<u8>>, outs: Seq<Seq<u8>>)
    requires
        ids.len() == outs.len(),
    ensures
        group_spec(ids, outs).len() <= 1 <==> crate::normalize::all_agree(outs),
{
    let n = outs.len() as int;
    let gu = group_spec(ids, outs);
    if crate::normalize::all_agree(outs) {
        if n >= 1 {
            lemma_group_all_equal(ids, outs, n);
        }
    }
    if gu.len() <= 1 {
        assert forall|i: int, j: int|
            0 <= i < outs.len() && 0 <= j < outs.len() implies outs[i] == outs[j] by {
            lemma_group_upto_has(ids, outs, n, i);
            lemma_group_upto_has(ids, outs, n, j);
            let gi = choose|g: int| 0 <= g < gu.len() && (#[trigger] gu[g]).output == outs[i];
            let gj = choose|g: int| 0 <= g < gu.len() && (#[trigger] gu[g]).output == outs[j];
            assert(gi == 0 && gj == 0);
        }
    }
}


/// The (configuration, raw buffers) pairs of the successful executions of
/// an event stream, in stream order. Failure and timeout entries are
/// excluded from comparison; they stay visible to the caller in the
/// stream itself.
pub open spec fn success_pairs(events: Seq<ExecutionEvent>) -> Seq<(ConfigId, Vec<Vec<u8>>)>
    decreases events.len(),
{
    if events.len() == 0 {
        Seq::<(ConfigId, Vec<Vec<u8>>)>::empty()
    } else {
        let prev = success_pairs(events.drop_last());
        match events.last() {
            ExecutionEvent::Success(c, b) => prev.push((c, b)),
            _ => prev,
        }
    }
}

/// Keep the successful executions of an event stream, in order: the
/// configurations and their raw output buffers, ready for normalization
/// and grouping.
pub fn collect_successes(events: Vec<ExecutionEvent>) -> (r: (Vec<ConfigId>, Vec<Vec<Vec<u8>>>))
    ensures
        r.0@ == success_pairs(events@).map_values(|p: (ConfigId, Vec<Vec<u8>>)| p.0),
        r.1@ == success_pairs(events@).map_values(|p: (ConfigId, Vec<Vec<u8>>)| p.1),
{
    let ghost all = events@;
    let mut events = events;
    let mut ids: Vec<ConfigId> = Vec::new();
    let mut buffers: Vec<Vec<Vec<u8>>> = Vec::new();
    let n = events.len();
    let mut i: usize = 0;
    while i < n
        invariant
            0 <= i <= n,
            n == all.len(),
            events@ =~= all.skip(i as int),
            ids@ == success_pairs(all.take(i as int)).map_values(
                |p: (ConfigId, Vec<Vec<u8>>)| p.0,
            ),
            buffers@ == success_pairs(all.take(i as int)).map_values(
                |p: (ConfigId, Vec<Vec<u8>>)| p.1,
            ),
        decreases n - i,
    {
        let event = events.remove(0);
        assert(event == all[i as int]);
        proof {
            assert(all.take(i + 1 as int).drop_last() =~= all.take(i as int));
            assert(all.take(i + 1 as int).last() == all[i as int]);
        }
        let ghost prev = success_pairs(all.take(i as int));
        match event {
            ExecutionEvent::Success(c, b) => {
                proof {
                    prev.lemma_push_map_commute(|p: (ConfigId, Vec<Vec<u8>>)| p.0, (c, b));
                    prev.lemma_push_map_commute(|p: (ConfigId, Vec<Vec<u8>>)| p.1, (c, b));
                }
                ids.push(c);
                buffers.push(b);
            },
            _ => {},
        }
        proof {
            assert(events@ =~= all.skip(i + 1 as int));
        }
        i += 1;
    }
    proof {
        assert(all.take(all.len() as int) =~= all);
    }
    (ids, buffers)
}


} // verus!
