use vstd::prelude::*;
use crate::encoding::{BasicEncoding, log_event_as_bytes_with_nl, record_spec};
use crate::event::{LogEvent, bytes_eq};
use crate::file::{
    FileSink, IoPoll, OpenPoll, Readiness, SinkError, SinkState, StartSend, close_spec,
    poll_complete_spec, poll_file_spec,
};
use crate::template::{Template, rendered, resolves};

verus! {

/// Configuration of a sink that spreads records over files named per record.
pub struct PartitionedFileSinkConfig {
    pub path_template: String,
    /// Idle time after which a partition's file may be closed (not acted on).
    pub close_timeout_secs: u64,
    pub encoding: Option<BasicEncoding>,
}

pub fn default_close_timeout_secs() -> (r: u64)
    ensures
        r == 60,
{
    60
}

impl PartitionedFileSinkConfig {
    pub fn new(path_template: String) -> (r: PartitionedFileSinkConfig)
        ensures
            r.path_template@ == path_template@,
            r.close_timeout_secs == 60,
            r.encoding is None,
    {
        PartitionedFileSinkConfig {
            path_template,
            close_timeout_secs: default_close_timeout_secs(),
            encoding: None,
        }
    }
}

/// Outcome of offering a record to the router.
#[derive(Debug)]
pub enum RouterSend {
    /// The template did not resolve against the record: it was dropped.
    Dropped,
    /// The partition `key` accepted the encoded `line`, to be queued on its file.
    Accepted { key: Vec<u8>, line: Vec<u8> },
    /// The partition's file is not open yet: the record goes back to the caller.
    NotReady(LogEvent),
}

/// What a partition table says of each key: its sink's state and the buffers
/// it accepted, in order.
pub open spec fn table_of(parts: Seq<(Seq<u8>, FileSink)>) -> Map<Seq<u8>, (SinkState, Seq<Seq<u8>>)> {
    Map::new(
        |k: Seq<u8>| exists|i: int| 0 <= i < parts.len() && parts[i].0 == k,
        |k: Seq<u8>|
            {
                let i = choose|i: int| 0 <= i < parts.len() && parts[i].0 == k;
                (parts[i].1.state_of(), parts[i].1.accepted_of())
            },
    )
}

/// Keys are distinct, and each partition's sink writes to the file its key names.
pub open spec fn parts_wf(parts: Seq<(Seq<u8>, FileSink)>) -> bool {
    &&& forall|i: int, j: int|
        0 <= i < parts.len() && 0 <= j < parts.len() && i != j ==> parts[i].0 != parts[j].0
    &&& forall|i: int| 0 <= i < parts.len() ==> (#[trigger] parts[i]).1.path_of() == parts[i].0
}

proof fn lemma_table_at(parts: Seq<(Seq<u8>, FileSink)>, i: int)
    requires
        parts_wf(parts),
        0 <= i < parts.len(),
    ensures
        table_of(parts).contains_key(parts[i].0),
        table_of(parts)[parts[i].0] == (parts[i].1.state_of(), parts[i].1.accepted_of()),
{
    let k = parts[i].0;
    assert(exists|i: int| 0 <= i < parts.len() && parts[i].0 == k);
}

proof fn lemma_table_update(parts: Seq<(Seq<u8>, FileSink)>, i: int, s: FileSink)
    requires
        parts_wf(parts),
        0 <= i < parts.len(),
        s.path_of() == parts[i].0,
    ensures
        parts_wf(parts.update(i, (parts[i].0, s))),
        table_of(parts.update(i, (parts[i].0, s))) == table_of(parts).insert(
            parts[i].0,
            (s.state_of(), s.accepted_of()),
        ),
{
    let np = parts.update(i, (parts[i].0, s));
    assert forall|j: int| 0 <= j < np.len() implies (#[trigger] np[j]).1.path_of() == np[j].0 by {
        if j != i {
            assert(np[j] == parts[j]);
        }
    }
    let t1 = table_of(np);
    let t2 = table_of(parts).insert(parts[i].0, (s.state_of(), s.accepted_of()));
    assert forall|k: Seq<u8>| t1.contains_key(k) <==> t2.contains_key(k) by {
        if t1.contains_key(k) {
            let j = choose|j: int| 0 <= j < np.len() && np[j].0 == k;
            if j != i {
                assert(parts[j].0 == k);
            }
        }
        if t2.contains_key(k) && k != parts[i].0 {
            let j = choose|j: int| 0 <= j < parts.len() && parts[j].0 == k;
            assert(np[j].0 == k);
        }
        if k == parts[i].0 {
            assert(np[i].0 == k);
        }
    }
    assert forall|k: Seq<u8>| t1.contains_key(k) implies t1[k] == t2[k] by {
        let j = choose|j: int| 0 <= j < np.len() && np[j].0 == k;
        lemma_table_at(np, j);
        if j != i {
            assert(np[j] == parts[j]);
            lemma_table_at(parts, j);
        }
    }
    assert(t1 =~= t2);
}

proof fn lemma_table_push(parts: Seq<(Seq<u8>, FileSink)>, k: Seq<u8>, s: FileSink)
    requires
        parts_wf(parts),
        !table_of(parts).contains_key(k),
        s.path_of() == k,
    ensures
        parts_wf(parts.push((k, s))),
        table_of(parts.push((k, s))) == table_of(parts).insert(k, (s.state_of(), s.accepted_of())),
{
    let np = parts.push((k, s));
    assert forall|j: int| 0 <= j < parts.len() implies parts[j].0 != k by {
        if parts[j].0 == k {
            assert(table_of(parts).contains_key(k));
        }
    }
    assert forall|j: int| 0 <= j < np.len() implies (#[trigger] np[j]).1.path_of() == np[j].0 by {
        if j < parts.len() {
            assert(np[j] == parts[j]);
        }
    }
    assert(parts_wf(np));
    let t1 = table_of(np);
    let t2 = table_of(parts).insert(k, (s.state_of(), s.accepted_of()));
    assert forall|k2: Seq<u8>| t1.contains_key(k2) <==> t2.contains_key(k2) by {
        if t1.contains_key(k2) && k2 != k {
            let j = choose|j: int| 0 <= j < np.len() && np[j].0 == k2;
            assert(parts[j].0 == k2);
        }
        if t2.contains_key(k2) && k2 != k {
            let j = choose|j: int| 0 <= j < parts.len() && parts[j].0 == k2;
            assert(np[j].0 == k2);
        }
        if k2 == k {
            assert(np[parts.len() as int].0 == k);
        }
    }
    assert forall|k2: Seq<u8>| t1.contains_key(k2) implies t1[k2] == t2[k2] by {
        let j = choose|j: int| 0 <= j < np.len() && np[j].0 == k2;
        lemma_table_at(np, j);
        if j < parts.len() {
            assert(np[j] == parts[j]);
            lemma_table_at(parts, j);
        }
    }
    assert(t1 =~= t2);
}

/// A key's entry before a record is routed to it: a fresh, opening sink
/// when the key is new.
pub open spec fn prior(table: Map<Seq<u8>, (SinkState, Seq<Seq<u8>>)>, k: Seq<u8>) -> (SinkState, Seq<Seq<u8>>) {
    if table.contains_key(k) {
        table[k]
    } else {
        (SinkState::Opening, Seq::<Seq<u8>>::empty())
    }
}

/// The table after one record is offered, given what its file's open reported.
pub open spec fn route_step(
    table: Map<Seq<u8>, (SinkState, Seq<Seq<u8>>)>,
    t: Seq<u8>,
    encoding: Option<BasicEncoding>,
    event: Seq<(Seq<u8>, Seq<u8>)>,
    open: OpenPoll,
) -> Map<Seq<u8>, (SinkState, Seq<Seq<u8>>)> {
    if !resolves(t, event) {
        table
    } else {
        let k = rendered(t, event);
        let prev = prior(table, k);
        let (s1, r1) = poll_file_spec(prev.0, open);
        table.insert(
            k,
            (s1, if r1 == Ok::<Readiness, SinkError>(Readiness::Ready) {
                prev.1.push(record_spec(event, encoding))
            } else {
                prev.1
            }),
        )
    }
}

/// The table after each record in turn is offered, every file reporting open.
pub open spec fn route_all(
    table: Map<Seq<u8>, (SinkState, Seq<Seq<u8>>)>,
    t: Seq<u8>,
    encoding: Option<BasicEncoding>,
    events: Seq<Seq<(Seq<u8>, Seq<u8>)>>,
) -> Map<Seq<u8>, (SinkState, Seq<Seq<u8>>)>
    decreases events.len(),
{
    if events.len() == 0 {
        table
    } else {
        route_all(
            route_step(table, t, encoding, events[0], OpenPoll::Opened),
            t,
            encoding,
            events.drop_first(),
        )
    }
}

/// The records of the events whose path renders to `k`, in order.
pub open spec fn records_for(
    t: Seq<u8>,
    encoding: Option<BasicEncoding>,
    events: Seq<Seq<(Seq<u8>, Seq<u8>)>>,
    k: Seq<u8>,
) -> Seq<Seq<u8>>
    decreases events.len(),
{
    if events.len() == 0 {
        Seq::empty()
    } else {
        let rest = records_for(t, encoding, events.drop_first(), k);
        if resolves(t, events[0]) && rendered(t, events[0]) == k {
            seq![record_spec(events[0], encoding)] + rest
        } else {
            rest
        }
    }
}

/// Routing a sequence of records while no partition has failed and every file
/// reports open: each path's file receives, after what it already had, all of
/// the records that render to that path and no others, in arrival order; a path
/// that no record renders to and that had no file still has none.
pub proof fn lemma_routing_partitions_records(
    table: Map<Seq<u8>, (SinkState, Seq<Seq<u8>>)>,
    t: Seq<u8>,
    encoding: Option<BasicEncoding>,
    events: Seq<Seq<(Seq<u8>, Seq<u8>)>>,
)
    requires
        forall|k: Seq<u8>| #[trigger] table.contains_key(k) ==> table[k].0 != SinkState::Disconnected,
    ensures
        forall|k: Seq<u8>|
            #[trigger] route_all(table, t, encoding, events).contains_key(k) <==> (
            table.contains_key(k) || records_for(t, encoding, events, k).len() > 0),
        forall|k: Seq<u8>| #[trigger]
            route_all(table, t, encoding, events).contains_key(k) ==> {
                let entry = route_all(table, t, encoding, events)[k];
                &&& entry.1 == prior(table, k).1 + records_for(t, encoding, events, k)
                &&& records_for(t, encoding, events, k).len() > 0 ==> entry.0
                    == SinkState::Connected
                &&& records_for(t, encoding, events, k).len() == 0 ==> entry == table[k]
            },
    decreases events.len(),
{
    if events.len() > 0 {
        let e = events[0];
        let tail = events.drop_first();
        let t1 = route_step(table, t, encoding, e, OpenPoll::Opened);
        assert forall|k: Seq<u8>| #[trigger] t1.contains_key(k) implies t1[k].0
            != SinkState::Disconnected by {}
        lemma_routing_partitions_records(t1, t, encoding, tail);
        let fin = route_all(table, t, encoding, events);
        assert(fin == route_all(t1, t, encoding, tail));
        assert forall|k: Seq<u8>| #[trigger] fin.contains_key(k) implies {
            &&& fin[k].1 == prior(table, k).1 + records_for(t, encoding, events, k)
            &&& records_for(t, encoding, events, k).len() > 0 ==> fin[k].0 == SinkState::Connected
            &&& records_for(t, encoding, events, k).len() == 0 ==> fin[k] == table[k]
        } by {
            let here = resolves(t, e) && rendered(t, e) == k;
            if here {
                assert(prior(t1, k).1 =~= prior(table, k).1.push(record_spec(e, encoding)));
                assert(prior(table, k).1 + records_for(t, encoding, events, k) =~= prior(t1, k).1
                    + records_for(t, encoding, tail, k));
            } else {
                assert(prior(t1, k) == prior(table, k));
                assert(records_for(t, encoding, events, k) == records_for(t, encoding, tail, k));
            }
        }
    }
}

/// Routes each record to the file its rendered path names, opening a sink
/// for each new path on first use. Partitions are never removed.
pub struct PartitionedFileSink {
    path_template: Template,
    encoding: Option<BasicEncoding>,
    partitions: Vec<(Vec<u8>, FileSink)>,
}

impl PartitionedFileSink {
    pub closed spec fn parts(&self) -> Seq<(Seq<u8>, FileSink)> {
        self.partitions@.map_values(|p: (Vec<u8>, FileSink)| (p.0@, p.1))
    }

    pub closed spec fn template_of(&self) -> Seq<u8> {
        self.path_template@
    }

    pub closed spec fn encoding_of(&self) -> Option<BasicEncoding> {
        self.encoding
    }

    pub open spec fn wf(&self) -> bool {
        parts_wf(self.parts())
    }

    /// Per path: its sink's state and the buffers accepted for that file.
    pub open spec fn table(&self) -> Map<Seq<u8>, (SinkState, Seq<Seq<u8>>)> {
        table_of(self.parts())
    }

    pub fn new(path_template: Template, encoding: Option<BasicEncoding>) -> (r: PartitionedFileSink)
        ensures
            r.wf(),
            r.template_of() == path_template@,
            r.encoding_of() == encoding,
            r.parts().len() == 0,
            r.table() == Map::<Seq<u8>, (SinkState, Seq<Seq<u8>>)>::empty(),
    {
        let r = PartitionedFileSink { path_template, encoding, partitions: Vec::new() };
        assert(r.table() =~= Map::<Seq<u8>, (SinkState, Seq<Seq<u8>>)>::empty());
        r
    }

    /// The partitions' paths, in the order `poll_complete` and `close` take
    /// their reports.
    pub fn partition_keys(&self) -> (r: Vec<Vec<u8>>)
        ensures
            r@.map_values(|k: Vec<u8>| k@) == self.parts().map_values(
                |p: (Seq<u8>, FileSink)| p.0,
            ),
    {
        let mut r: Vec<Vec<u8>> = Vec::new();
        let mut i: usize = 0;
        while i < self.partitions.len()
            invariant
                0 <= i <= self.partitions@.len(),
                r@.len() == i,
                forall|j: int| 0 <= j < i ==> (#[trigger] r@[j])@ == self.parts()[j].0,
            decreases self.partitions@.len() - i,
        {
            let k = self.partitions[i].0.clone();
            assert(k@ == self.parts()[i as int].0);
            r.push(k);
            i = i + 1;
        }
        assert(r@.map_values(|k: Vec<u8>| k@) =~= self.parts().map_values(
            |p: (Seq<u8>, FileSink)| p.0,
        ));
        r
    }

    fn find_partition(&self, key: &Vec<u8>) -> (r: Option<usize>)
        ensures
            match r {
                Some(i) => i < self.parts().len() && self.parts()[i as int].0 == key@,
                None => forall|i: int| 0 <= i < self.parts().len() ==> self.parts()[i].0 != key@,
            },
    {
        let mut i: usize = 0;
        while i < self.partitions.len()
            invariant
                0 <= i <= self.partitions@.len(),
                forall|j: int| 0 <= j < i ==> self.parts()[j].0 != key@,
            decreases self.partitions@.len() - i,
        {
            if bytes_eq(self.partitions[i].0.as_slice(), key.as_slice()) {
                return Some(i);
            }
            i = i + 1;
        }
        None
    }

    /// Offers a record, given what polling the open of its partition's file
    /// reported (consulted only while that file is opening). A record whose
    /// path cannot be rendered is dropped, touching no partition. Otherwise
    /// its partition, created on first use, takes the encoded record exactly
    /// as a lone sink would, and no other partition changes.
    pub fn start_send(&mut self, event: LogEvent, open: OpenPoll) -> (r: Result<RouterSend, SinkError>)
        requires
            old(self).wf(),
        ensures
            final(self).wf(),
            final(self).template_of() == old(self).template_of(),
            final(self).encoding_of() == old(self).encoding_of(),
            !resolves(old(self).template_of(), event@) ==> (r matches Ok(RouterSend::Dropped))
                && final(self).parts() == old(self).parts(),
            resolves(old(self).template_of(), event@) ==> {
                let k = rendered(old(self).template_of(), event@);
                let line = record_spec(event@, old(self).encoding_of());
                let r1 = poll_file_spec(prior(old(self).table(), k).0, open).1;
                &&& final(self).table() == route_step(
                    old(self).table(),
                    old(self).template_of(),
                    old(self).encoding_of(),
                    event@,
                    open,
                )
                &&& match r1 {
                    Ok(Readiness::Ready) => r matches Ok(RouterSend::Accepted { key, line: b })
                        && key@ == k && b@ == line,
                    Ok(Readiness::NotReady) => r matches Ok(RouterSend::NotReady(e)) && e@
                        == event@,
                    Err(e) => r == Err::<RouterSend, SinkError>(e),
                }
            },
    {
        match self.path_template.render(&event) {
            Err(_) => Ok(RouterSend::Dropped),
            Ok(key) => {
                let line = log_event_as_bytes_with_nl(&event, self.encoding);
                let ghost old_parts = self.parts();
                let idx: usize = match self.find_partition(&key) {
                    Some(i) => {
                        proof {
                            lemma_table_at(old_parts, i as int);
                        }
                        i
                    },
                    None => {
                        proof {
                            if self.table().contains_key(key@) {
                                let j = choose|j: int|
                                    0 <= j < old_parts.len() && old_parts[j].0 == key@;
                                assert(old_parts[j].0 != key@);
                            }
                        }
                        let sink = FileSink::new(key.clone());
                        let ghost s = sink;
                        self.partitions.push((key.clone(), sink));
                        proof {
                            lemma_table_push(old_parts, key@, s);
                            assert(self.parts() =~= old_parts.push((key@, s)));
                            lemma_table_at(self.parts(), old_parts.len() as int);
                        }
                        self.partitions.len() - 1
                    },
                };
                let ghost mid_parts = self.parts();
                let (k, mut sink) = self.partitions.remove(idx);
                let res = sink.start_send(line, open);
                let ghost s = sink;
                self.partitions.insert(idx, (k, sink));
                proof {
                    assert(self.parts() =~= mid_parts.update(idx as int, (mid_parts[idx as int].0, s)));
                    lemma_table_update(mid_parts, idx as int, s);
                }
                match res {
                    Ok(StartSend::Accepted(b)) => Ok(RouterSend::Accepted { key, line: b }),
                    Ok(StartSend::NotReady(_)) => Ok(RouterSend::NotReady(event)),
                    Err(e) => Err(e),
                }
            },
        }
    }
    /// Advances every partition, given what polling each one's open and flush
    /// reported (in the order of `partition_keys`). A partition that fails
    /// stays in the table, disconnected; the router itself always reports
    /// progress.
    pub fn poll_complete(&mut self, polls: Vec<(OpenPoll, IoPoll)>) -> (r: Readiness)
        requires
            old(self).wf(),
            polls@.len() == old(self).parts().len(),
        ensures
            final(self).wf(),
            r == Readiness::Ready,
            final(self).template_of() == old(self).template_of(),
            final(self).encoding_of() == old(self).encoding_of(),
            final(self).parts().len() == old(self).parts().len(),
            forall|i: int|
                0 <= i < old(self).parts().len() ==> {
                    let p = #[trigger] final(self).parts()[i];
                    let q = old(self).parts()[i];
                    &&& p.0 == q.0
                    &&& p.1.state_of() == poll_complete_spec(
                        q.1.state_of(),
                        polls@[i].0,
                        polls@[i].1,
                    ).0
                    &&& p.1.accepted_of() == q.1.accepted_of()
                },
    {
        let ghost orig = self.parts();
        let ghost orig_polls = polls@;
        let mut polls = polls;
        let mut i: usize = polls.len();
        while i > 0
            invariant
                0 <= i <= orig.len(),
                polls@ == orig_polls.take(i as int),
                orig_polls.len() == orig.len(),
                self.parts().len() == orig.len(),
                parts_wf(self.parts()),
                self.template_of() == old(self).template_of(),
                self.encoding_of() == old(self).encoding_of(),
                forall|j: int| 0 <= j < i ==> #[trigger] self.parts()[j] == orig[j],
                forall|j: int|
                    i <= j < orig.len() ==> {
                        let p = #[trigger] self.parts()[j];
                        &&& p.0 == orig[j].0
                        &&& p.1.state_of() == poll_complete_spec(
                            orig[j].1.state_of(),
                            orig_polls[j].0,
                            orig_polls[j].1,
                        ).0
                        &&& p.1.accepted_of() == orig[j].1.accepted_of()
                    },
            decreases i,
        {
            i = i - 1;
            let (open, flush) = match polls.pop() {
                Some(pf) => pf,
                None => (OpenPoll::Pending, IoPoll::Pending),
            };
            assert(polls@ =~= orig_polls.take(i as int));
            let ghost before = self.parts();
            let (k, mut sink) = self.partitions.remove(i);
            let _ = sink.poll_complete(open, flush);
            let ghost s = sink;
            self.partitions.insert(i, (k, sink));
            proof {
                assert(self.parts() =~= before.update(i as int, (before[i as int].0, s)));
                lemma_table_update(before, i as int, s);
            }
        }
        Readiness::Ready
    }

    /// Closes every partition, given what polling each one's open, flush and
    /// shutdown reported (in the order of `partition_keys`). Done only once no
    /// partition is still pending; a failed partition counts as finished.
    pub fn close(&mut self, polls: Vec<(OpenPoll, IoPoll, IoPoll)>) -> (r: Readiness)
        requires
            old(self).wf(),
            polls@.len() == old(self).parts().len(),
        ensures
            final(self).wf(),
            final(self).template_of() == old(self).template_of(),
            final(self).encoding_of() == old(self).encoding_of(),
            final(self).parts().len() == old(self).parts().len(),
            forall|i: int|
                0 <= i < old(self).parts().len() ==> {
                    let p = #[trigger] final(self).parts()[i];
                    let q = old(self).parts()[i];
                    &&& p.0 == q.0
                    &&& p.1.state_of() == close_spec(
                        q.1.state_of(),
                        polls@[i].0,
                        polls@[i].1,
                        polls@[i].2,
                    ).0
                    &&& p.1.accepted_of() == q.1.accepted_of()
                },
            r == Readiness::Ready <==> forall|i: int|
                0 <= i < old(self).parts().len() ==> close_spec(
                    (#[trigger] old(self).parts()[i]).1.state_of(),
                    polls@[i].0,
                    polls@[i].1,
                    polls@[i].2,
                ).1 != Ok::<Readiness, SinkError>(Readiness::NotReady),
            r == Readiness::Ready || r == Readiness::NotReady,
    {
        let ghost orig = self.parts();
        let ghost orig_polls = polls@;
        let mut polls = polls;
        let mut i: usize = polls.len();
        let mut all_done = true;
        while i > 0
            invariant
                0 <= i <= orig.len(),
                polls@ == orig_polls.take(i as int),
                orig_polls.len() == orig.len(),
                self.parts().len() == orig.len(),
                parts_wf(self.parts()),
                self.template_of() == old(self).template_of(),
                self.encoding_of() == old(self).encoding_of(),
                forall|j: int| 0 <= j < i ==> #[trigger] self.parts()[j] == orig[j],
                forall|j: int|
                    i <= j < orig.len() ==> {
                        let p = #[trigger] self.parts()[j];
                        &&& p.0 == orig[j].0
                        &&& p.1.state_of() == close_spec(
                            orig[j].1.state_of(),
                            orig_polls[j].0,
                            orig_polls[j].1,
                            orig_polls[j].2,
                        ).0
                        &&& p.1.accepted_of() == orig[j].1.accepted_of()
                    },
                all_done <==> forall|j: int|
                    i <= j < orig.len() ==> close_spec(
                        (#[trigger] orig[j]).1.state_of(),
                        orig_polls[j].0,
                        orig_polls[j].1,
                        orig_polls[j].2,
                    ).1 != Ok::<Readiness, SinkError>(Readiness::NotReady),
            decreases i,
        {
            i = i - 1;
            let (open, flush, shutdown) = match polls.pop() {
                Some(pf) => pf,
                None => (OpenPoll::Pending, IoPoll::Pending, IoPoll::Pending),
            };
            assert(polls@ =~= orig_polls.take(i as int));
            let ghost before = self.parts();
            let (k, mut sink) = self.partitions.remove(i);
            let res = sink.close(open, flush, shutdown);
            if let Ok(Readiness::NotReady) = res {
                all_done = false;
            }
            let ghost s = sink;
            self.partitions.insert(i, (k, sink));
            proof {
                assert(self.parts() =~= before.update(i as int, (before[i as int].0, s)));
                lemma_table_update(before, i as int, s);
            }
        }
        if all_done {
            Readiness::Ready
        } else {
            Readiness::NotReady
        }
    }
}

} // verus!
