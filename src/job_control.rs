use vstd::prelude::*;

verus! {

/// Keeps the jobs whose handle is not `id`.
pub open spec fn other_than(id: u32) -> spec_fn((u32, i32)) -> bool {
    |e: (u32, i32)| e.0 != id
}

/// The process of the job with handle `id`, if there is one.
pub open spec fn job_pid(v: Seq<(u32, i32)>, id: u32) -> Option<i32>
    decreases v.len(),
{
    if v.len() == 0 {
        None
    } else if v.last().0 == id {
        Some(v.last().1)
    } else {
        job_pid(v.drop_last(), id)
    }
}

/// The background jobs, as handle and process id pairs in the order they
/// were started, with the handle that the next job will get.
pub struct JobControl {
    pub jobs: Vec<(u32, i32)>,
    pub next_job_id: u32,
}

impl JobControl {
    /// Handles are assigned from 1 upward, so they increase along the list
    /// and all lie below the next one.
    pub open spec fn wf(&self) -> bool {
        &&& 1 <= self.next_job_id
        &&& forall|k: int| 0 <= k < self.jobs@.len() ==> #[trigger] self.jobs@[k].0 < self.next_job_id
        &&& forall|a: int, b: int|
            0 <= a < b < self.jobs@.len() ==> #[trigger] self.jobs@[a].0 < #[trigger] self.jobs@[b].0
    }

    /// A registry with no jobs, whose first handle will be 1.
    pub fn new() -> (r: Self)
        ensures
            r.wf(),
            r.jobs@ == Seq::<(u32, i32)>::empty(),
            r.next_job_id == 1,
    {
        JobControl { jobs: Vec::new(), next_job_id: 1 }
    }

    /// Records the job led by `pid` under the next handle, and returns it.
    pub fn add_job(&mut self, pid: i32) -> (r: u32)
        requires
            old(self).wf(),
            old(self).next_job_id < u32::MAX,
        ensures
            final(self).wf(),
            r == old(self).next_job_id,
            final(self).next_job_id == r + 1,
            final(self).jobs@ == old(self).jobs@.push((r, pid)),
    {
        let job_id = self.next_job_id;
        self.jobs.push((job_id, pid));
        self.next_job_id = self.next_job_id + 1;
        job_id
    }

    /// Forgets the job with handle `job_id`, if there is one.
    pub fn remove_job(&mut self, job_id: u32)
        requires
            old(self).wf(),
        ensures
            final(self).wf(),
            final(self).next_job_id == old(self).next_job_id,
            final(self).jobs@ == old(self).jobs@.filter(other_than(job_id)),
    {
        let ghost v = self.jobs@;
        let ghost nx = self.next_job_id;
        let mut out: Vec<(u32, i32)> = Vec::new();
        let mut i: usize = 0;
        while i < self.jobs.len()
            invariant
                v == self.jobs@,
                nx == self.next_job_id,
                old(self).wf(),
                *old(self) == *self,
                i <= v.len(),
                out@ == v.take(i as int).filter(other_than(job_id)),
                forall|k: int| 0 <= k < out@.len() ==> #[trigger] out@[k].0 < nx,
                forall|a: int, b: int|
                    0 <= a < b < out@.len() ==> #[trigger] out@[a].0 < #[trigger] out@[b].0,
                forall|k: int| 0 <= k < out@.len() && i < v.len() ==> #[trigger] out@[k].0 < v[i as int].0,
            decreases v.len() - i,
        {
            let e = self.jobs[i];
            proof {
                reveal(Seq::filter);
                assert(v.take(i + 1).drop_last() =~= v.take(i as int));
                assert(v.take(i + 1).last() == v[i as int]);
                assert(other_than(job_id)(v[i as int]) == (v[i as int].0 != job_id));
                assert(v.take(i + 1).filter(other_than(job_id)) == if v[i as int].0 != job_id {
                    v.take(i as int).filter(other_than(job_id)).push(v[i as int])
                } else {
                    v.take(i as int).filter(other_than(job_id))
                });
            }
            if e.0 != job_id {
                out.push(e);
            }
            proof {
                if i + 1 < v.len() {
                    assert(v[i as int].0 < v[i + 1].0);
                }
            }
            i = i + 1;
        }
        assert(v.take(v.len() as int) =~= v);
        proof {
            reveal(Seq::filter);
        }
        self.jobs = out;
    }

    /// The jobs, in the order they were started.
    pub fn list_jobs(&self) -> (r: Vec<(u32, i32)>)
        ensures
            r@ == self.jobs@,
    {
        let mut out: Vec<(u32, i32)> = Vec::new();
        let mut i: usize = 0;
        while i < self.jobs.len()
            invariant
                i <= self.jobs@.len(),
                out@ == self.jobs@.take(i as int),
            decreases self.jobs@.len() - i,
        {
            out.push(self.jobs[i]);
            assert(out@ =~= self.jobs@.take(i + 1));
            i = i + 1;
        }
        assert(self.jobs@.take(i as int) =~= self.jobs@);
        out
    }

    /// The process of the job with handle `job_id`, if there is one.
    pub fn get_job(&self, job_id: u32) -> (r: Option<i32>)
        ensures
            r == job_pid(self.jobs@, job_id),
    {
        let mut i: usize = self.jobs.len();
        assert(self.jobs@.take(i as int) =~= self.jobs@);
        while i > 0
            invariant
                i <= self.jobs@.len(),
                job_pid(self.jobs@, job_id) == job_pid(self.jobs@.take(i as int), job_id),
            decreases i,
        {
            proof {
                assert(self.jobs@.take(i as int).drop_last() =~= self.jobs@.take(i - 1));
            }
            if self.jobs[i - 1].0 == job_id {
                return Some(self.jobs[i - 1].1);
            }
            i = i - 1;
        }
        None
    }
}

proof fn lemma_filter_keeps_all(v: Seq<(u32, i32)>, id: u32)
    requires
        forall|k: int| 0 <= k < v.len() ==> #[trigger] v[k].0 != id,
    ensures
        v.filter(other_than(id)) == v,
    decreases v.len(),
{
    reveal(Seq::filter);
    if v.len() > 0 {
        lemma_filter_keeps_all(v.drop_last(), id);
        assert(v.drop_last().push(v.last()) =~= v);
    }
}

/// Adding a job puts exactly one more entry on the list, and removing the
/// handle it got leaves the list as it was before.
pub proof fn lemma_add_then_remove(j: JobControl, pid: i32)
    requires
        j.wf(),
    ensures
        j.jobs@.push((j.next_job_id, pid)).len() == j.jobs@.len() + 1,
        j.jobs@.push((j.next_job_id, pid)).filter(other_than(j.next_job_id)) == j.jobs@,
{
    reveal(Seq::filter);
    let v = j.jobs@;
    let w = v.push((j.next_job_id, pid));
    assert(w.drop_last() =~= v);
    assert(!other_than(j.next_job_id)(w.last()));
    lemma_filter_keeps_all(v, j.next_job_id);
}

} // verus!
