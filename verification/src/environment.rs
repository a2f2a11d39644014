//! The environment variables of a process.

use vstd::prelude::*;

use crate::text::same_text;

verus! {

/// Variables and their values. No variable occurs twice.
#[derive(Debug)]
pub struct Environment {
    entries: Vec<(String, String)>,
}

/// What a list of assignments leaves: each one replaces an earlier one.
pub open spec fn assigned(entries: Seq<(String, String)>) -> Map<Seq<char>, Seq<char>>
    decreases entries.len(),
{
    if entries.len() == 0 {
        Map::empty()
    } else {
        assigned(entries.drop_last()).insert(entries.last().0@, entries.last().1@)
    }
}

/// No two entries have the same name.
pub open spec fn distinct_names(entries: Seq<(String, String)>) -> bool {
    forall|i: int, j: int|
        0 <= i < j < entries.len() ==> (#[trigger] entries[i]).0@ != (#[trigger] entries[j]).0@
}

proof fn lemma_assigned(entries: Seq<(String, String)>)
    requires
        distinct_names(entries),
    ensures
        forall|i: int|
            0 <= i < entries.len() ==> assigned(entries).dom().contains(
                (#[trigger] entries[i]).0@,
            ) && assigned(entries)[entries[i].0@] == entries[i].1@,
        forall|name: Seq<char>| #[trigger]
            assigned(entries).dom().contains(name) ==> exists|i: int|
                0 <= i < entries.len() && (#[trigger] entries[i]).0@ == name,
    decreases entries.len(),
{
    if entries.len() > 0 {
        let front = entries.drop_last();
        let last = entries.len() - 1;
        assert forall|i: int, j: int| 0 <= i < j < front.len() implies (#[trigger] front[i]).0@ != (
        #[trigger] front[j]).0@ by {
            assert(entries[i].0@ != entries[j].0@);
        }
        lemma_assigned(front);
        assert forall|i: int| 0 <= i < entries.len() implies assigned(entries).dom().contains(
            (#[trigger] entries[i]).0@,
        ) && assigned(entries)[entries[i].0@] == entries[i].1@ by {
            if i < last {
                assert(front[i] == entries[i]);
                assert(entries[i].0@ != entries[last].0@);
            }
        }
        assert forall|name: Seq<char>| #[trigger]
            assigned(entries).dom().contains(name) implies exists|i: int|
            0 <= i < entries.len() && (#[trigger] entries[i]).0@ == name by {
            if name == entries[last].0@ {
                assert(entries[last].0@ == name);
            } else {
                assert(assigned(front).dom().contains(name));
                let i = choose|i: int| 0 <= i < front.len() && (#[trigger] front[i]).0@ == name;
                assert(entries[i].0@ == name);
            }
        }
    }
}

impl View for Environment {
    type V = Map<Seq<char>, Seq<char>>;

    closed spec fn view(&self) -> Map<Seq<char>, Seq<char>> {
        assigned(self.entries@)
    }
}

impl Environment {
    #[verifier::type_invariant]
    spec fn no_variable_twice(self) -> bool {
        distinct_names(self.entries@)
    }

    /// No variables.
    pub fn new() -> (environment: Environment)
        ensures
            environment@ == Map::<Seq<char>, Seq<char>>::empty(),
    {
        Environment { entries: Vec::new() }
    }

    /// The environment with one more variable, or with another value for it.
    pub fn with(self, name: String, value: String) -> (environment: Environment)
        ensures
            environment@ == self@.insert(name@, value@),
    {
        proof {
            use_type_invariant(&self);
        }
        let ghost before = self.entries@;
        let mut entries = self.entries;
        let mut i: usize = 0;
        while i < entries.len()
            invariant
                i <= entries@.len(),
                entries@ == before,
                assigned(before) == self@,
                distinct_names(before),
                forall|k: int| 0 <= k < i ==> (#[trigger] before[k]).0@ != name@,
            decreases entries@.len() - i,
        {
            if same_text(entries[i].0.as_str(), name.as_str()) {
                let ghost after = before.update(i as int, (name, value));
                entries.set(i, (name, value));
                proof {
                    assert(entries@ =~= after);
                    assert forall|a: int, b: int| 0 <= a < b < after.len() implies (
                    #[trigger] after[a]).0@ != (#[trigger] after[b]).0@ by {
                        assert(before[a].0@ != before[b].0@);
                    }
                    lemma_assigned(before);
                    lemma_assigned(after);
                    assert(after[i as int] == (name, value));
                    assert forall|n: Seq<char>| #[trigger]
                        assigned(after).dom().contains(n) <==> assigned(before).insert(
                            name@,
                            value@,
                        ).dom().contains(n) by {
                        if assigned(after).dom().contains(n) && n != name@ {
                            let k = choose|k: int|
                                0 <= k < after.len() && (#[trigger] after[k]).0@ == n;
                            assert(before[k].0@ == n);
                        }
                        if assigned(before).dom().contains(n) && n != name@ {
                            let k = choose|k: int|
                                0 <= k < before.len() && (#[trigger] before[k]).0@ == n;
                            assert(after[k].0@ == n);
                        }
                    }
                    assert forall|n: Seq<char>| #[trigger]
                        assigned(after).dom().contains(n) implies assigned(after)[n] == assigned(
                        before,
                    ).insert(name@, value@)[n] by {
                        let k = choose|k: int|
                            0 <= k < after.len() && (#[trigger] after[k]).0@ == n;
                        if k != i {
                            assert(before[k] == after[k]);
                            assert(before[k].0@ != name@) by {
                                if k < i {
                                } else {
                                    assert(before[i as int].0@ != before[k].0@);
                                }
                            }
                        }
                    }
                    assert(assigned(after) =~= assigned(before).insert(name@, value@));
                }
                return Environment { entries };
            }
            i = i + 1;
        }
        let ghost after = before.push((name, value));
        entries.push((name, value));
        proof {
            assert forall|a: int, b: int| 0 <= a < b < after.len() implies (#[trigger] after[a]).0@
                != (#[trigger] after[b]).0@ by {
                if b < before.len() {
                    assert(before[a].0@ != before[b].0@);
                } else {
                    assert(before[a].0@ != name@);
                }
            }
            assert(after.drop_last() =~= before);
        }
        Environment { entries }
    }

    /// The variables and their values.
    pub fn list(&self) -> (entries: &Vec<(String, String)>)
        ensures
            assigned(entries@) == self@,
            distinct_names(entries@),
    {
        proof {
            use_type_invariant(self);
        }
        &self.entries
    }

    /// The same variables once more.
    pub fn copy(&self) -> (environment: Environment)
        ensures
            environment@ == self@,
    {
        proof {
            use_type_invariant(self);
        }
        let mut entries: Vec<(String, String)> = Vec::new();
        let mut i: usize = 0;
        while i < self.entries.len()
            invariant
                i <= self.entries@.len(),
                entries@ == self.entries@.take(i as int),
                distinct_names(self.entries@),
            decreases self.entries@.len() - i,
        {
            entries.push((self.entries[i].0.clone(), self.entries[i].1.clone()));
            i = i + 1;
        }
        assert(entries@ =~= self.entries@);
        Environment { entries }
    }
}

// ---------------------------------------------------------------------------
// Laws

/// Entries with different names each set their variable to their value, and set
/// no other variable.
pub proof fn law_entries_set_variables(entries: Seq<(String, String)>)
    requires
        distinct_names(entries),
    ensures
        forall|i: int|
            0 <= i < entries.len() ==> assigned(entries).dom().contains(
                (#[trigger] entries[i]).0@,
            ) && assigned(entries)[entries[i].0@] == entries[i].1@,
        forall|name: Seq<char>| #[trigger]
            assigned(entries).dom().contains(name) ==> exists|i: int|
                0 <= i < entries.len() && (#[trigger] entries[i]).0@ == name,
{
    lemma_assigned(entries);
}

} // verus!
