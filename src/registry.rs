//! The process registry: at most one live handle per application id.
use vstd::prelude::*;
use vstd::string::*;

verus! {

/// True when some entry of `s` is held under `id`.
pub open spec fn holds_id<H>(s: Seq<(Seq<char>, H)>, id: Seq<char>) -> bool {
    exists|i: int| 0 <= i < s.len() && #[trigger] s[i].0 == id
}

/// No two entries of `s` share an id.
pub open spec fn ids_unique<H>(s: Seq<(Seq<char>, H)>) -> bool {
    forall|i: int, j: int|
        0 <= i < s.len() && 0 <= j < s.len() && #[trigger] s[i].0 == #[trigger] s[j].0 ==> i == j
}

/// The entries of `s` without the one held under `id`.
pub open spec fn without_id<H>(s: Seq<(Seq<char>, H)>, id: Seq<char>) -> Seq<(Seq<char>, H)> {
    s.filter(|e: (Seq<char>, H)| e.0 != id)
}

/// A table from application id to the handle of its live process.
pub struct Registry<H> {
    entries: Vec<(String, H)>,
}

impl<H> Registry<H> {
    /// The entries, in the order they were inserted.
    pub closed spec fn view(&self) -> Seq<(Seq<char>, H)> {
        self.entries@.map_values(|e: (String, H)| (e.0@, e.1))
    }

    pub open spec fn wf(&self) -> bool {
        ids_unique(self@)
    }

    pub open spec fn spec_is_running(&self, id: Seq<char>) -> bool {
        holds_id(self@, id)
    }

    /// An empty registry.
    pub fn new() -> (r: Self)
        ensures
            r.wf(),
            r@.len() == 0,
    {
        let r = Registry { entries: Vec::new() };
        assert(r@ =~= Seq::<(Seq<char>, H)>::empty());
        r
    }

    /// The number of live entries.
    pub fn len(&self) -> (n: usize)
        ensures
            n == self@.len(),
    {
        self.entries.len()
    }

    fn position(&self, id: &str) -> (r: Option<usize>)
        ensures
            r is None <==> !holds_id(self@, id@),
            r matches Some(i) ==> i < self@.len() && self@[i as int].0 == id@,
    {
        let key = String::from_str(id);
        let mut i: usize = 0;
        while i < self.entries.len()
            invariant
                i <= self.entries@.len(),
                key@ == id@,
                forall|j: int| 0 <= j < i ==> #[trigger] self@[j].0 != id@,
            decreases self.entries@.len() - i,
        {
            if self.entries[i].0 == key {
                assert(self@[i as int].0 == id@);
                return Some(i);
            }
            i = i + 1;
        }
        proof {
            if holds_id(self@, id@) {
                let k = choose|k: int| 0 <= k < self@.len() && #[trigger] self@[k].0 == id@;
                assert(self@[k].0 != id@);
            }
        }
        None
    }

    /// Whether a live process is registered under `id`. Never consults the
    /// operating system.
    pub fn is_running(&self, id: &str) -> (r: bool)
        ensures
            r == self.spec_is_running(id@),
    {
        self.position(id).is_some()
    }

    /// Registers `h` under `id` unless that id is already live, in which
    /// case the registry is left as it was and `h` is handed back.
    pub fn try_insert(&mut self, id: &str, h: H) -> (r: Result<(), H>)
        requires
            old(self).wf(),
        ensures
            final(self).wf(),
            old(self).spec_is_running(id@) ==> r == Err::<(), H>(h) && final(self)@ == old(self)@,
            !old(self).spec_is_running(id@) ==> r is Ok && final(self)@ == old(self)@.push((id@, h)),
    {
        if self.position(id).is_some() {
            return Err(h);
        }
        let key = String::from_str(id);
        self.entries.push((key, h));
        proof {
            assert(self@ =~= old(self)@.push((id@, h)));
            assert forall|i: int, j: int|
                0 <= i < self@.len() && 0 <= j < self@.len() && #[trigger] self@[i].0
                    == #[trigger] self@[j].0 implies i == j by {
                if i < old(self)@.len() && j == old(self)@.len() {
                    assert(old(self)@[i].0 == id@);
                } else if j < old(self)@.len() && i == old(self)@.len() {
                    assert(old(self)@[j].0 == id@);
                }
            }
        }
        Ok(())
    }

    /// Takes the handle registered under `id` out of the registry.
    pub fn remove(&mut self, id: &str) -> (r: Option<H>)
        requires
            old(self).wf(),
        ensures
            final(self).wf(),
            !final(self).spec_is_running(id@),
            r is None <==> !old(self).spec_is_running(id@),
            r is None ==> final(self)@ == old(self)@,
            r matches Some(h) ==> exists|i: int|
                0 <= i < old(self)@.len() && old(self)@[i] == (id@, h) && final(self)@
                    == old(self)@.remove(i),
            final(self)@ == without_id(old(self)@, id@),
    {
        match self.position(id) {
            None => {
                proof { lemma_without_absent(self@, id@); }
                None
            },
            Some(i) => {
                let ghost before = self@;
                let e = self.entries.remove(i);
                proof {
                    assert(self@ =~= before.remove(i as int));
                    lemma_without_unique(before, i as int);
                    assert forall|a: int, b: int|
                        0 <= a < self@.len() && 0 <= b < self@.len() && #[trigger] self@[a].0
                            == #[trigger] self@[b].0 implies a == b by {
                        let a0 = if a < i { a } else { a + 1 };
                        let b0 = if b < i { b } else { b + 1 };
                        assert(before[a0].0 == before[b0].0);
                    }
                    if holds_id(self@, id@) {
                        let k = choose|k: int| 0 <= k < self@.len() && #[trigger] self@[k].0 == id@;
                        let k0 = if k < i { k } else { k + 1 };
                        assert(before[k0].0 == before[i as int].0);
                    }
                }
                Some(e.1)
            },
        }
    }
}

proof fn lemma_without_absent<H>(s: Seq<(Seq<char>, H)>, id: Seq<char>)
    requires
        !holds_id(s, id),
    ensures
        without_id(s, id) == s,
    decreases s.len(),
{
    reveal(Seq::filter);
    if s.len() > 0 {
        let t = s.drop_last();
        assert forall|i: int| 0 <= i < t.len() implies #[trigger] t[i].0 != id by {
            assert(s[i].0 != id);
        }
        lemma_without_absent(t, id);
        assert(s.last().0 != id);
        assert(s =~= t.push(s.last()));
    }
}

proof fn lemma_without_unique<H>(s: Seq<(Seq<char>, H)>, i: int)
    requires
        ids_unique(s),
        0 <= i < s.len(),
    ensures
        without_id(s, s[i].0) == s.remove(i),
    decreases s.len(),
{
    reveal(Seq::filter);
    let id = s[i].0;
    let t = s.drop_last();
    assert(s =~= t.push(s.last()));
    if i == s.len() - 1 {
        assert forall|k: int| 0 <= k < t.len() implies #[trigger] t[k].0 != id by {
            assert(s[k].0 != s[i].0);
        }
        lemma_without_absent(t, id);
        assert(s.remove(i) =~= t);
    } else {
        assert(ids_unique(t));
        assert(t[i] == s[i]);
        lemma_without_unique(t, i);
        assert(s.last().0 != id);
        assert(s.remove(i) =~= t.remove(i).push(s.last()));
    }
}

} // verus!
