use vstd::prelude::*;

verus! {

/// The value bound to `k` by the last entry of `v` whose name is `k`.
pub open spec fn lookup(v: Seq<(String, String)>, k: Seq<char>) -> Option<Seq<char>>
    decreases v.len(),
{
    if v.len() == 0 {
        None
    } else if v.last().0@ == k {
        Some(v.last().1@)
    } else {
        lookup(v.drop_last(), k)
    }
}

/// The shell's variables, as name and value pairs.
pub struct Environment {
    pub vars: Vec<(String, String)>,
}

proof fn lemma_lookup_push(v: Seq<(String, String)>, e: (String, String), k: Seq<char>)
    ensures
        lookup(v.push(e), k) == if e.0@ == k { Some(e.1@) } else { lookup(v, k) },
{
    assert(v.push(e).drop_last() =~= v);
}

impl Environment {
    /// No name is held twice.
    pub open spec fn wf(&self) -> bool {
        forall|a: int, b: int|
            0 <= a < b < self.vars@.len() ==> #[trigger] self.vars@[a].0@ != #[trigger] self.vars@[b].0@
    }

    /// The variables as a map from name to value.
    pub open spec fn view(&self) -> Map<Seq<char>, Seq<char>> {
        Map::new(|k: Seq<char>| lookup(self.vars@, k) is Some, |k: Seq<char>| lookup(self.vars@, k)->0)
    }

    /// An environment with no variables; the caller seeds it.
    pub fn new() -> (r: Self)
        ensures
            r.wf(),
            r@ == Map::<Seq<char>, Seq<char>>::empty(),
    {
        let r = Environment { vars: Vec::new() };
        assert(r@ =~= Map::<Seq<char>, Seq<char>>::empty());
        r
    }

    /// Drops the variable `key`, if it is bound.
    pub fn remove_var(&mut self, key: &str)
        ensures
            final(self)@ == old(self)@.remove(key@),
            old(self).wf() ==> final(self).wf(),
            forall|j: int| 0 <= j < final(self).vars@.len() ==> #[trigger] final(self).vars@[j].0@ != key@,
    {
        let k = key.to_owned();
        let ghost v = self.vars@;
        let mut out: Vec<(String, String)> = Vec::new();
        let mut i: usize = 0;
        while i < self.vars.len()
            invariant
                v == self.vars@,
                k@ == key@,
                i <= v.len(),
                forall|n: Seq<char>|
                    lookup(out@, n) == if n == key@ { None } else { lookup(v.take(i as int), n) },
                forall|j: int| 0 <= j < out@.len() ==> #[trigger] out@[j].0@ != key@,
                old(self).wf() ==> forall|a: int, b: int|
                    0 <= a < b < out@.len() ==> #[trigger] out@[a].0@ != #[trigger] out@[b].0@,
                old(self).wf() ==> forall|a: int, k: int|
                    0 <= a < out@.len() && i <= k < v.len() ==> #[trigger] out@[a].0@ != #[trigger] v[k].0@,
                *old(self) == *self,
            decreases v.len() - i,
        {
            let e = &self.vars[i];
            proof {
                assert(v.take(i + 1).drop_last() =~= v.take(i as int));
            }
            if !(e.0 == k) {
                let ghost before = out@;
                out.push((e.0.clone(), e.1.clone()));
                proof {
                    assert forall|n: Seq<char>|
                        lookup(out@, n) == if n == key@ { None } else { lookup(v.take(i + 1), n) }
                    by {
                        lemma_lookup_push(before, out@.last(), n);
                        assert(out@ == before.push(out@.last()));
                    }
                }
            }
            i = i + 1;
        }
        assert(v.take(v.len() as int) =~= v);
        self.vars = out;
        assert(self@ =~= old(self)@.remove(key@));
    }

    /// Binds `key` to `value`, replacing any earlier value.
    pub fn set_var(&mut self, key: &str, value: &str)
        ensures
            final(self)@ == old(self)@.insert(key@, value@),
            old(self).wf() ==> final(self).wf(),
    {
        self.remove_var(key);
        let ghost v = self.vars@;
        let ghost mid = self@;
        let e = (key.to_owned(), value.to_owned());
        self.vars.push(e);
        proof {
            assert forall|n: Seq<char>| lookup(self.vars@, n) == if n == key@ { Some(value@) } else { lookup(v, n) } by {
                lemma_lookup_push(v, e, n);
            }
        }
        let ghost want = old(self)@.insert(key@, value@);
        assert forall|n: Seq<char>|
            (#[trigger] self@.contains_key(n) == want.contains_key(n)) && (want.contains_key(n)
                ==> self@[n] == want[n]) by {
            if n != key@ {
                assert(mid.contains_key(n) == old(self)@.contains_key(n));
                if want.contains_key(n) {
                    assert(mid[n] == old(self)@[n]);
                }
            }
        }
        assert(self@ =~= want);
    }

    /// Each variable written as `NAME=value`, in the order they are held, as
    /// a child process's environment takes them.
    pub fn environment_block(&self) -> (r: Vec<String>)
        ensures
            r@.len() == self.vars@.len(),
            forall|i: int|
                0 <= i < r@.len() ==> #[trigger] r@[i]@ == self.vars@[i].0@ + seq!['='] + self.vars@[i].1@,
    {
        let mut out: Vec<String> = Vec::new();
        let mut i: usize = 0;
        while i < self.vars.len()
            invariant
                i <= self.vars@.len(),
                out@.len() == i,
                forall|k: int|
                    0 <= k < i ==> #[trigger] out@[k]@ == self.vars@[k].0@ + seq!['='] + self.vars@[k].1@,
            decreases self.vars@.len() - i,
        {
            let mut kv = self.vars[i].0.clone();
            proof {
                reveal_strlit("=");
            }
            kv.append("=");
            kv.append(self.vars[i].1.as_str());
            out.push(kv);
            i = i + 1;
        }
        out
    }

    /// The value of `key`, if it is bound.
    pub fn get_var(&self, key: &str) -> (r: Option<&String>)
        ensures
            match r {
                Some(s) => self@.contains_key(key@) && s@ == self@[key@],
                None => !self@.contains_key(key@),
            },
    {
        let k = key.to_owned();
        let mut i: usize = self.vars.len();
        assert(self.vars@.take(i as int) =~= self.vars@);
        while i > 0
            invariant
                k@ == key@,
                i <= self.vars.len(),
                lookup(self.vars@, key@) == lookup(self.vars@.take(i as int), key@),
            decreases i,
        {
            proof {
                assert(self.vars@.take(i as int).drop_last() =~= self.vars@.take(i - 1));
            }
            if self.vars[i - 1].0 == k {
                return Some(&self.vars[i - 1].1);
            }
            i = i - 1;
        }
        None
    }
}

} // verus!
