use vstd::prelude::*;

use crate::text::same_chars;

verus! {

/// Named values, each name held once.
pub struct VariableStore<T> {
    entries: Vec<(Vec<char>, T)>,
}

/// The mapping that a list of entries holds; a later entry wins.
pub open spec fn map_of<T>(es: Seq<(Vec<char>, T)>) -> Map<Seq<char>, T>
    decreases es.len(),
{
    if es.len() == 0 {
        Map::empty()
    } else {
        map_of(es.drop_last()).insert(es.last().0@, es.last().1)
    }
}

/// No name occurs twice.
pub open spec fn names_unique<T>(es: Seq<(Vec<char>, T)>) -> bool {
    forall|i: int, j: int| 0 <= i < j < es.len() ==> es[i].0@ != es[j].0@
}

proof fn lemma_map_keys<T>(es: Seq<(Vec<char>, T)>, k: Seq<char>)
    ensures
        map_of(es).contains_key(k) <==> exists|i: int| 0 <= i < es.len() && es[i].0@ == k,
    decreases es.len(),
{
    if es.len() > 0 {
        lemma_map_keys(es.drop_last(), k);
        if map_of(es.drop_last()).contains_key(k) {
            let i = choose|i: int| 0 <= i < es.drop_last().len() && es.drop_last()[i].0@ == k;
            assert(es[i].0@ == k);
        }
        if exists|i: int| 0 <= i < es.len() && es[i].0@ == k {
            let i = choose|i: int| 0 <= i < es.len() && es[i].0@ == k;
            if i < es.len() - 1 {
                assert(es.drop_last()[i].0@ == k);
            }
        }
    }
}

proof fn lemma_map_value<T>(es: Seq<(Vec<char>, T)>, i: int)
    requires
        names_unique(es),
        0 <= i < es.len(),
    ensures
        map_of(es).contains_key(es[i].0@),
        map_of(es)[es[i].0@] == es[i].1,
    decreases es.len(),
{
    if i < es.len() - 1 {
        lemma_map_value(es.drop_last(), i);
    }
}

proof fn lemma_map_remove<T>(es: Seq<(Vec<char>, T)>, i: int)
    requires
        names_unique(es),
        0 <= i < es.len(),
    ensures
        map_of(es.remove(i)) == map_of(es).remove(es[i].0@),
        names_unique(es.remove(i)),
    decreases es.len(),
{
    let k = es[i].0@;
    let rest = es.drop_last();
    if i == es.len() - 1 {
        assert(es.remove(i) =~= rest);
        lemma_map_keys(rest, k);
        assert(map_of(rest) =~= map_of(es).remove(k));
    } else {
        lemma_map_remove(rest, i);
        assert(es.remove(i).drop_last() =~= rest.remove(i));
        assert(es.remove(i).last() == es.last());
        assert(es.last().0@ != k);
        assert(map_of(es.remove(i)) =~= map_of(es).remove(k));
    }
}

proof fn lemma_push_fresh<T>(es: Seq<(Vec<char>, T)>, e: (Vec<char>, T))
    requires
        names_unique(es),
        !map_of(es).contains_key(e.0@),
    ensures
        names_unique(es.push(e)),
        map_of(es.push(e)) == map_of(es).insert(e.0@, e.1),
{
    lemma_map_keys(es, e.0@);
    assert(es.push(e).drop_last() =~= es);
    assert forall|i: int, j: int| 0 <= i < j < es.push(e).len() implies es.push(e)[i].0@ != es.push(
        e,
    )[j].0@ by {
        if j == es.len() {
            assert(es[i].0@ != e.0@);
        }
    }
}

impl<T: Copy> VariableStore<T> {
    pub closed spec fn view(&self) -> Map<Seq<char>, T> {
        map_of(self.entries@)
    }

    pub closed spec fn wf(&self) -> bool {
        names_unique(self.entries@)
    }

    pub fn new() -> (r: Self)
        ensures
            r.wf(),
            r.view() == Map::<Seq<char>, T>::empty(),
    {
        VariableStore { entries: Vec::new() }
    }

    fn find(&self, name: &Vec<char>) -> (r: Option<usize>)
        requires
            self.wf(),
        ensures
            r matches Some(i) ==> i < self.entries@.len() && self.entries@[i as int].0@ == name@,
            r is None ==> !self.view().contains_key(name@),
    {
        let mut i: usize = 0;
        while i < self.entries.len()
            invariant
                i <= self.entries@.len(),
                forall|k: int| 0 <= k < i ==> self.entries@[k].0@ != name@,
            decreases self.entries.len() - i,
        {
            if same_chars(&self.entries[i].0, name) {
                return Some(i);
            }
            i = i + 1;
        }
        proof {
            lemma_map_keys(self.entries@, name@);
        }
        None
    }

    pub fn contains(&self, name: &Vec<char>) -> (r: bool)
        requires
            self.wf(),
        ensures
            r == self.view().contains_key(name@),
    {
        match self.find(name) {
            Some(i) => {
                proof {
                    lemma_map_value(self.entries@, i as int);
                }
                true
            },
            None => false,
        }
    }

    pub fn get(&self, name: &Vec<char>) -> (r: Option<T>)
        requires
            self.wf(),
        ensures
            r == (if self.view().contains_key(name@) {
                Some(self.view()[name@])
            } else {
                None
            }),
    {
        match self.find(name) {
            Some(i) => {
                proof {
                    lemma_map_value(self.entries@, i as int);
                }
                Some(self.entries[i].1)
            },
            None => None,
        }
    }

    pub fn remove(&mut self, name: &Vec<char>)
        requires
            old(self).wf(),
        ensures
            final(self).wf(),
            final(self).view() == old(self).view().remove(name@),
    {
        match self.find(name) {
            Some(i) => {
                proof {
                    lemma_map_remove(self.entries@, i as int);
                }
                self.entries.remove(i);
            },
            None => {
                assert(self.view() =~= self.view().remove(name@));
            },
        }
    }

    pub fn set(&mut self, name: Vec<char>, value: T)
        requires
            old(self).wf(),
        ensures
            final(self).wf(),
            final(self).view() == old(self).view().insert(name@, value),
    {
        self.remove(&name);
        proof {
            lemma_push_fresh(self.entries@, (name, value));
        }
        self.entries.push((name, value));
        assert(self.view() =~= old(self).view().insert(name@, value));
    }

    pub fn clear(&mut self)
        ensures
            final(self).wf(),
            final(self).view() == Map::<Seq<char>, T>::empty(),
    {
        self.entries.clear();
    }
}

} // verus!
