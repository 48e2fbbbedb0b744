use vstd::prelude::*;
use crate::processing_error::ProcessingError;
use crate::utils::{str_eq, str_views};

verus! {

// ----------------------------------------------------------------------------
// The batching output mode: records accumulate in memory and drain to the
// per-category sinks when the batch fills or on `finalize`. What ends up in
// the sinks depends only on the records taken in, never on the batch size:
// that is the point of the contracts below.
// ----------------------------------------------------------------------------

/// The records a name-keyed listing holds for one name; names are unique.
pub open spec fn batch_at(names: Seq<String>, lists: Seq<Vec<String>>, k: Seq<char>) -> Seq<
    Seq<char>,
>
    decreases names.len(),
{
    if names.len() == 0 {
        Seq::empty()
    } else if names.last()@ == k {
        str_views(lists.last()@)
    } else {
        batch_at(names.drop_last(), lists.drop_last(), k)
    }
}

/// The records taken for one category over the writer's whole history, in
/// order.
pub open spec fn taken_at(log: Seq<(Seq<char>, Seq<char>)>, k: Seq<char>) -> Seq<Seq<char>>
    decreases log.len(),
{
    if log.len() == 0 {
        Seq::empty()
    } else {
        taken_at(log.drop_last(), k) + (if log.last().0 == k {
            seq![log.last().1]
        } else {
            Seq::empty()
        })
    }
}

/// The batching writer: per-category buffers, the per-category records
/// already drained to the sinks, the logical-entry counter that triggers a
/// drain, and a ghost log of everything taken in.
pub struct BatchedWriter {
    /// The categories with buffered records, unique.
    pub pending_names: Vec<String>,
    /// The buffered records per category, parallel to `pending_names`.
    pub pending: Vec<Vec<String>>,
    /// The categories with drained records, unique.
    pub emitted_names: Vec<String>,
    /// The drained records per category, parallel to `emitted_names`.
    pub emitted: Vec<Vec<String>>,
    /// How many logical entries the current batch holds.
    pub kv_entries: usize,
    /// How many logical entries fill a batch.
    pub batch_size: usize,
    /// Everything taken in, in order.
    pub log: Ghost<Seq<(Seq<char>, Seq<char>)>>,
}

impl BatchedWriter {
    /// The listings pair up, no name repeats, and drained plus buffered
    /// records per category are exactly the records taken for it.
    pub open spec fn wf(&self) -> bool {
        &&& self.pending_names@.len() == self.pending@.len()
        &&& self.emitted_names@.len() == self.emitted@.len()
        &&& forall|i: int, j: int|
            0 <= i < j < self.pending_names@.len() ==> (#[trigger] self.pending_names@[i])@ != (
            #[trigger] self.pending_names@[j])@
        &&& forall|i: int, j: int|
            0 <= i < j < self.emitted_names@.len() ==> (#[trigger] self.emitted_names@[i])@ != (
            #[trigger] self.emitted_names@[j])@
        &&& forall|k: Seq<char>|
            batch_at(self.emitted_names@, self.emitted@, k) + batch_at(
                self.pending_names@,
                self.pending@,
                k,
            ) == #[trigger] taken_at(self.log@, k)
    }

    /// A writer with nothing taken in yet.
    pub fn new(batch_size: usize) -> (r: Self)
        ensures
            r.wf(),
            r.log@ == Seq::<(Seq<char>, Seq<char>)>::empty(),
            r.batch_size == batch_size,
            r.pending_names@.len() == 0,
            r.kv_entries == 0,
    {
        let r = BatchedWriter {
            pending_names: Vec::new(),
            pending: Vec::new(),
            emitted_names: Vec::new(),
            emitted: Vec::new(),
            kv_entries: 0,
            batch_size,
            log: Ghost(Seq::empty()),
        };
        proof {
            assert forall|k: Seq<char>|
                batch_at(r.emitted_names@, r.emitted@, k) + batch_at(
                    r.pending_names@,
                    r.pending@,
                    k,
                ) == #[trigger] taken_at(r.log@, k) by {
                assert(batch_at(r.emitted_names@, r.emitted@, k) + batch_at(
                    r.pending_names@,
                    r.pending@,
                    k,
                ) =~= Seq::<Seq<char>>::empty());
            }
        }
        r
    }

    /// Buffers one record for a category; when the batch is already full,
    /// the buffers drain first to the sinks, and only then. The counter is
    /// stepped by `add_kv_entry` alone.
    pub fn add_csv_entry(&mut self, entity_type: String, record: String) -> (r: Result<
        (),
        ProcessingError,
    >)
        requires
            old(self).wf(),
        ensures
            final(self).wf(),
            final(self).log@ == old(self).log@.push((entity_type@, record@)),
            final(self).batch_size == old(self).batch_size,
            final(self).kv_entries == (if old(self).kv_entries >= old(self).batch_size {
                0
            } else {
                old(self).kv_entries
            }),
            old(self).kv_entries < old(self).batch_size
                ==> final(self).emitted_names == old(self).emitted_names
                && final(self).emitted == old(self).emitted,
            old(self).kv_entries >= old(self).batch_size
                ==> final(self).pending_names@.len() == 1,
            r is Ok,
    {
        if self.kv_entries >= self.batch_size {
            let _ = self.flush();
        }
        let ghost catv = entity_type@;
        let ghost recv = record@;
        let ghost w0 = *self;
        let ghost pn0 = self.pending_names@;
        let ghost p0 = self.pending@;
        let ghost log0 = self.log@;
        match find_name(&self.pending_names, entity_type.as_str()) {
            Some(idx) => {
                let mut list = self.pending.remove(idx);
                list.push(record);
                self.pending.insert(idx, list);
                self.log = Ghost(log0.push((catv, recv)));
                proof {
                    assert(self.pending@ =~= p0.update(idx as int, self.pending@[idx as int]));
                    assert(str_views(self.pending@[idx as int]@) =~= str_views(
                        p0[idx as int]@,
                    ).push(recv));
                    lemma_batch_at_found(pn0, p0, idx as int);
                    lemma_batch_at_update(pn0, p0, idx as int, self.pending@[idx as int], catv);
                    lemma_taken_push(log0, catv, recv);
                    assert forall|k: Seq<char>|
                        batch_at(self.emitted_names@, self.emitted@, k) + batch_at(
                            self.pending_names@,
                            self.pending@,
                            k,
                        ) == #[trigger] taken_at(self.log@, k) by {
                        let e = batch_at(w0.emitted_names@, w0.emitted@, k);
                        let pnd = batch_at(pn0, p0, k);
                        assert(e + pnd == taken_at(log0, k));
                        if k == catv {
                            assert(batch_at(self.pending_names@, self.pending@, k) == pnd.push(
                                recv,
                            ));
                            assert(e + pnd.push(recv) =~= (e + pnd).push(recv));
                        } else {
                            assert(taken_at(self.log@, k) =~= taken_at(log0, k));
                        }
                    }
                }
                Ok(())
            },
            None => {
                let mut list: Vec<String> = Vec::new();
                list.push(record);
                self.pending_names.push(entity_type);
                self.pending.push(list);
                self.log = Ghost(log0.push((catv, recv)));
                proof {
                    assert(self.pending_names@.drop_last() =~= pn0);
                    assert(self.pending@.drop_last() =~= p0);
                    assert(self.pending_names@.last()@ == catv);
                    assert(str_views(self.pending@.last()@) =~= seq![recv]);
                    lemma_batch_at_absent(pn0, p0, catv);
                    lemma_taken_push(log0, catv, recv);
                    assert forall|k: Seq<char>|
                        batch_at(self.emitted_names@, self.emitted@, k) + batch_at(
                            self.pending_names@,
                            self.pending@,
                            k,
                        ) == #[trigger] taken_at(self.log@, k) by {
                        let e = batch_at(w0.emitted_names@, w0.emitted@, k);
                        let pnd = batch_at(pn0, p0, k);
                        assert(e + pnd == taken_at(log0, k));
                        if k == catv {
                            assert(pnd =~= Seq::<Seq<char>>::empty());
                            assert(batch_at(self.pending_names@, self.pending@, k) == seq![recv]);
                            assert(e + seq![recv] =~= (e + pnd).push(recv));
                        } else {
                            assert(batch_at(self.pending_names@, self.pending@, k) == batch_at(
                                pn0,
                                p0,
                                k,
                            ));
                            assert(taken_at(self.log@, k) =~= taken_at(log0, k));
                        }
                    }
                    assert forall|i: int, j: int|
                        0 <= i < j < self.pending_names@.len() implies (
                        #[trigger] self.pending_names@[i])@ != (
                        #[trigger] self.pending_names@[j])@ by {
                        if j == self.pending_names@.len() - 1 {
                            assert(self.pending_names@[i] == pn0[i]);
                        }
                    }
                }
                Ok(())
            },
        }
    }

    /// Counts one logical entry toward the batch: the counter steps by one,
    /// and exactly when it reaches the batch size the buffers drain to the
    /// sinks and the counter resets; below the threshold nothing else
    /// moves.
    pub fn add_kv_entry(&mut self) -> (r: Result<(), ProcessingError>)
        requires
            old(self).wf(),
            old(self).kv_entries < usize::MAX,
        ensures
            final(self).wf(),
            final(self).log@ == old(self).log@,
            final(self).batch_size == old(self).batch_size,
            final(self).kv_entries == (if old(self).kv_entries + 1 >= old(self).batch_size {
                0
            } else {
                old(self).kv_entries + 1
            }),
            old(self).kv_entries + 1 >= old(self).batch_size
                ==> final(self).pending_names@.len() == 0,
            old(self).kv_entries + 1 < old(self).batch_size
                ==> final(self).pending_names == old(self).pending_names
                && final(self).pending == old(self).pending
                && final(self).emitted_names == old(self).emitted_names
                && final(self).emitted == old(self).emitted,
            r is Ok,
    {
        self.kv_entries = self.kv_entries + 1;
        if self.kv_entries >= self.batch_size {
            let _ = self.flush();
        }
        Ok(())
    }

    /// Drains every buffered record to its category's sink, in buffer
    /// order; what each category holds overall does not change.
    pub fn flush(&mut self) -> (r: Result<(), ProcessingError>)
        requires
            old(self).wf(),
        ensures
            final(self).wf(),
            final(self).log@ == old(self).log@,
            final(self).batch_size == old(self).batch_size,
            final(self).pending_names@.len() == 0,
            final(self).kv_entries == 0,
            r is Ok,
    {
        while self.pending_names.len() > 0
            invariant
                self.wf(),
                self.log@ == old(self).log@,
                self.batch_size == old(self).batch_size,
            decreases self.pending_names@.len(),
        {
            let ghost w0 = *self;
            let nm = self.pending_names.remove(0);
            let list = self.pending.remove(0);
            let ghost nmv = nm@;
            let ghost lv = str_views(list@);
            proof {
                assert(self.pending_names@ =~= w0.pending_names@.drop_first());
                assert(self.pending@ =~= w0.pending@.drop_first());
                lemma_batch_at_drop_front(w0.pending_names@, w0.pending@);
            }
            let ghost mid = *self;
            self.merge_emitted(nm, list);
            proof {
                assert forall|k: Seq<char>|
                    batch_at(self.emitted_names@, self.emitted@, k) + batch_at(
                        self.pending_names@,
                        self.pending@,
                        k,
                    ) == #[trigger] taken_at(self.log@, k) by {
                    let e = batch_at(w0.emitted_names@, w0.emitted@, k);
                    let pnd = batch_at(w0.pending_names@, w0.pending@, k);
                    assert(e + pnd == taken_at(w0.log@, k));
                    if k == nmv {
                        assert(pnd == lv);
                        assert(batch_at(self.emitted_names@, self.emitted@, k) == e + lv);
                        assert(batch_at(self.pending_names@, self.pending@, k) =~= Seq::<
                            Seq<char>,
                        >::empty());
                        assert((e + lv) + Seq::<Seq<char>>::empty() =~= e + lv);
                    } else {
                        assert(batch_at(self.emitted_names@, self.emitted@, k) == e);
                        assert(batch_at(self.pending_names@, self.pending@, k) == pnd);
                    }
                }
            }
        }
        self.kv_entries = 0;
        Ok(())
    }

    /// Appends one drained buffer to its category's sink.
    fn merge_emitted(&mut self, nm: String, list: Vec<String>)
        requires
            old(self).emitted_names@.len() == old(self).emitted@.len(),
            forall|i: int, j: int|
                0 <= i < j < old(self).emitted_names@.len()
                    ==> (#[trigger] old(self).emitted_names@[i])@
                    != (#[trigger] old(self).emitted_names@[j])@,
        ensures
            final(self).emitted_names@.len() == final(self).emitted@.len(),
            forall|i: int, j: int|
                0 <= i < j < final(self).emitted_names@.len()
                    ==> (#[trigger] final(self).emitted_names@[i])@
                    != (#[trigger] final(self).emitted_names@[j])@,
            batch_at(final(self).emitted_names@, final(self).emitted@, nm@) == batch_at(
                old(self).emitted_names@,
                old(self).emitted@,
                nm@,
            ) + str_views(list@),
            forall|k2: Seq<char>|
                k2 != nm@ ==> batch_at(final(self).emitted_names@, final(self).emitted@, k2)
                    == batch_at(old(self).emitted_names@, old(self).emitted@, k2),
            final(self).pending_names == old(self).pending_names,
            final(self).pending == old(self).pending,
            final(self).log == old(self).log,
            final(self).batch_size == old(self).batch_size,
            final(self).kv_entries == old(self).kv_entries,
    {
        let ghost en0 = self.emitted_names@;
        let ghost e0 = self.emitted@;
        let n = self.emitted_names.len();
        let mut i: usize = 0;
        while i < n
            invariant
                i <= n,
                n == self.emitted_names@.len(),
                self.emitted_names@.len() == self.emitted@.len(),
                self == old(self),
                forall|j: int, l: int|
                    0 <= j < l < self.emitted_names@.len()
                        ==> (#[trigger] self.emitted_names@[j])@
                        != (#[trigger] self.emitted_names@[l])@,
                forall|j: int| 0 <= j < i ==> (#[trigger] self.emitted_names@[j])@ != nm@,
            decreases n - i,
        {
            if str_eq(self.emitted_names[i].as_str(), nm.as_str()) {
                let ghost en1 = self.emitted_names@;
                let ghost e1 = self.emitted@;
                let ghost lv = str_views(list@);
                let mut sink = self.emitted.remove(i);
                let ghost sink0 = sink@;
                let mut incoming = list;
                sink.append(&mut incoming);
                self.emitted.insert(i, sink);
                proof {
                    assert(self.emitted@ =~= e1.update(i as int, self.emitted@[i as int]));
                    assert(str_views(self.emitted@[i as int]@) =~= str_views(e1[i as int]@) + lv);
                    lemma_batch_at_found(en1, e1, i as int);
                    lemma_batch_at_update(en1, e1, i as int, self.emitted@[i as int], nm@);
                }
                return;
            }
            i += 1;
        }
        self.emitted_names.push(nm);
        self.emitted.push(list);
        proof {
            assert(self.emitted_names@.drop_last() =~= en0);
            assert(self.emitted@.drop_last() =~= e0);
            lemma_batch_at_absent(en0, e0, self.emitted_names@.last()@);
            assert(Seq::<Seq<char>>::empty() + str_views(self.emitted@.last()@) =~= str_views(
                self.emitted@.last()@,
            ));
            assert forall|k2: Seq<char>| k2 != self.emitted_names@.last()@ implies batch_at(
                self.emitted_names@,
                self.emitted@,
                k2,
            ) == batch_at(en0, e0, k2) by {
                assert(batch_at(self.emitted_names@, self.emitted@, k2) == batch_at(
                    self.emitted_names@.drop_last(),
                    self.emitted@.drop_last(),
                    k2,
                ));
            }
        }
    }

    /// Drains any remainder; the terminal path calls this exactly once.
    pub fn finalize(&mut self) -> (r: Result<(), ProcessingError>)
        requires
            old(self).wf(),
        ensures
            final(self).wf(),
            final(self).log@ == old(self).log@,
            final(self).batch_size == old(self).batch_size,
            final(self).pending_names@.len() == 0,
            final(self).kv_entries == 0,
            r is Ok,
    {
        self.flush()
    }
}

/// Law: once drained, the records a category's sink holds are exactly the
/// records taken for that category, in order — so two writers that took
/// the same records hold the same sinks after `finalize`, whatever their
/// batch sizes and however their intermediate drains fell.
pub proof fn lemma_batch_mode_equivalence(w1: BatchedWriter, w2: BatchedWriter, k: Seq<char>)
    requires
        w1.wf(),
        w2.wf(),
        w1.pending_names@.len() == 0,
        w2.pending_names@.len() == 0,
        w1.log@ == w2.log@,
    ensures
        batch_at(w1.emitted_names@, w1.emitted@, k) == batch_at(w2.emitted_names@, w2.emitted@, k),
        batch_at(w1.emitted_names@, w1.emitted@, k) == taken_at(w1.log@, k),
{
    assert(batch_at(w1.emitted_names@, w1.emitted@, k) + batch_at(
        w1.pending_names@,
        w1.pending@,
        k,
    ) == taken_at(w1.log@, k));
    assert(batch_at(w2.emitted_names@, w2.emitted@, k) + batch_at(
        w2.pending_names@,
        w2.pending@,
        k,
    ) == taken_at(w2.log@, k));
    assert(batch_at(w1.emitted_names@, w1.emitted@, k) + Seq::<Seq<char>>::empty() =~= batch_at(
        w1.emitted_names@,
        w1.emitted@,
        k,
    ));
    assert(batch_at(w2.emitted_names@, w2.emitted@, k) + Seq::<Seq<char>>::empty() =~= batch_at(
        w2.emitted_names@,
        w2.emitted@,
        k,
    ));
}

/// With unique names, the listing holds a found name's own records.
proof fn lemma_batch_at_found(names: Seq<String>, lists: Seq<Vec<String>>, i: int)
    requires
        names.len() == lists.len(),
        0 <= i < names.len(),
        forall|j: int, l: int|
            0 <= j < l < names.len() ==> (#[trigger] names[j])@ != (#[trigger] names[l])@,
    ensures
        batch_at(names, lists, names[i]@) == str_views(lists[i]@),
    decreases names.len(),
{
    if i == names.len() - 1 {
    } else {
        assert(names.last()@ != names[i]@);
        assert(names.drop_last()[i] == names[i]);
        lemma_batch_at_found(names.drop_last(), lists.drop_last(), i);
    }
}

/// A name the listing does not carry holds no records.
proof fn lemma_batch_at_absent(names: Seq<String>, lists: Seq<Vec<String>>, k: Seq<char>)
    requires
        names.len() == lists.len(),
        forall|j: int| 0 <= j < names.len() ==> (#[trigger] names[j])@ != k,
    ensures
        batch_at(names, lists, k) == Seq::<Seq<char>>::empty(),
    decreases names.len(),
{
    if names.len() > 0 {
        lemma_batch_at_absent(names.drop_last(), lists.drop_last(), k);
    }
}

/// Replacing one name's records replaces them and nothing else.
proof fn lemma_batch_at_update(
    names: Seq<String>,
    lists: Seq<Vec<String>>,
    i: int,
    list: Vec<String>,
    k: Seq<char>,
)
    requires
        names.len() == lists.len(),
        0 <= i < names.len(),
        names[i]@ == k,
        forall|j: int, l: int|
            0 <= j < l < names.len() ==> (#[trigger] names[j])@ != (#[trigger] names[l])@,
    ensures
        batch_at(names, lists.update(i, list), k) == str_views(list@),
        forall|k2: Seq<char>|
            k2 != k ==> batch_at(names, lists.update(i, list), k2) == batch_at(names, lists, k2),
    decreases names.len(),
{
    let up = lists.update(i, list);
    if i == names.len() - 1 {
        assert(up.last() == list);
        assert(up.drop_last() =~= lists.drop_last());
        assert forall|k2: Seq<char>| k2 != k implies batch_at(names, up, k2) == batch_at(
            names,
            lists,
            k2,
        ) by {
            assert(names.last()@ == k);
        }
    } else {
        assert(up.last() == lists.last());
        assert(up.drop_last() =~= lists.drop_last().update(i, list));
        assert(names.drop_last()[i] == names[i]);
        lemma_batch_at_update(names.drop_last(), lists.drop_last(), i, list, k);
        assert(names.last()@ != k);
        assert forall|k2: Seq<char>| k2 != k implies batch_at(names, up, k2) == batch_at(
            names,
            lists,
            k2,
        ) by {
            if names.last()@ != k2 {
                assert(batch_at(names.drop_last(), lists.drop_last().update(i, list), k2)
                    == batch_at(names.drop_last(), lists.drop_last(), k2));
            }
        }
    }
}

/// Dropping the front buffer moves its records out of the pending total.
proof fn lemma_batch_at_drop_front(names: Seq<String>, lists: Seq<Vec<String>>)
    requires
        names.len() == lists.len(),
        names.len() > 0,
        forall|j: int, l: int|
            0 <= j < l < names.len() ==> (#[trigger] names[j])@ != (#[trigger] names[l])@,
    ensures
        batch_at(names, lists, names[0]@) == str_views(lists[0]@),
        forall|k2: Seq<char>|
            k2 != names[0]@ ==> batch_at(names.drop_first(), lists.drop_first(), k2) == batch_at(
                names,
                lists,
                k2,
            ),
        batch_at(names.drop_first(), lists.drop_first(), names[0]@) == Seq::<Seq<char>>::empty(),
    decreases names.len(),
{
    lemma_batch_at_found(names, lists, 0);
    assert forall|j: int|
        0 <= j < names.drop_first().len() implies (#[trigger] names.drop_first()[j])@
        != names[0]@ by {
        assert(names.drop_first()[j] == names[j + 1]);
    }
    lemma_batch_at_absent(names.drop_first(), lists.drop_first(), names[0]@);
    assert forall|k2: Seq<char>| k2 != names[0]@ implies batch_at(
        names.drop_first(),
        lists.drop_first(),
        k2,
    ) == batch_at(names, lists, k2) by {
        lemma_batch_at_shift(names, lists, k2);
    }
}

/// For a name other than the front one, dropping the front buffer changes
/// nothing.
proof fn lemma_batch_at_shift(names: Seq<String>, lists: Seq<Vec<String>>, k: Seq<char>)
    requires
        names.len() == lists.len(),
        names.len() > 0,
        names[0]@ != k,
    ensures
        batch_at(names.drop_first(), lists.drop_first(), k) == batch_at(names, lists, k),
    decreases names.len(),
{
    if names.len() == 1 {
        assert(names.drop_first() =~= Seq::<String>::empty());
        assert(lists.drop_first() =~= Seq::<Vec<String>>::empty());
        assert(names.drop_last() =~= Seq::<String>::empty());
        assert(lists.drop_last() =~= Seq::<Vec<String>>::empty());
        assert(names.last() == names[0]);
        assert(names.last()@ != k);
    } else {
        if names.last()@ == k {
            assert(names.drop_first().last() == names.last());
            assert(lists.drop_first().last() == lists.last());
        } else {
            assert(names.drop_first().drop_last() =~= names.drop_last().drop_first());
            assert(lists.drop_first().drop_last() =~= lists.drop_last().drop_first());
            assert(names.drop_last()[0] == names[0]);
            lemma_batch_at_shift(names.drop_last(), lists.drop_last(), k);
            assert(names.drop_first().last() == names.last());
        }
    }
}

/// Taking one more record extends its category's records and no other's.
proof fn lemma_taken_push(log: Seq<(Seq<char>, Seq<char>)>, cat: Seq<char>, rec: Seq<char>)
    ensures
        forall|k: Seq<char>| #[trigger] taken_at(log.push((cat, rec)), k) == taken_at(log, k) + (
        if cat == k {
            seq![rec]
        } else {
            Seq::<Seq<char>>::empty()
        }),
{
    assert forall|k: Seq<char>| #[trigger] taken_at(log.push((cat, rec)), k) == taken_at(log, k)
        + (if cat == k {
        seq![rec]
    } else {
        Seq::<Seq<char>>::empty()
    }) by {
        assert(log.push((cat, rec)).drop_last() =~= log);
        assert(log.push((cat, rec)).last() == (cat, rec));
    }
}

/// The position of the first string with a given view.
fn find_name(names: &Vec<String>, k: &str) -> (r: Option<usize>)
    ensures
        match r {
            Some(i) => i < names@.len() && names@[i as int]@ == k@,
            None => forall|j: int| 0 <= j < names@.len() ==> (#[trigger] names@[j])@ != k@,
        },
{
    let n = names.len();
    let mut i: usize = 0;
    while i < n
        invariant
            i <= n,
            n == names@.len(),
            forall|j: int| 0 <= j < i ==> (#[trigger] names@[j])@ != k@,
        decreases n - i,
    {
        if str_eq(names[i].as_str(), k) {
            return Some(i);
        }
        i += 1;
    }
    None
}

} // verus!
