//! The table of named targets, kept in the order of their names.
use vstd::prelude::*;
use crate::config::{RawTarget, RawTargetView};
use crate::text::{self, lemma_text_before_total, lemma_text_before_transitive, text_before};

verus! {

/// A target under its name.
#[derive(Debug, Clone)]
pub struct TargetEntry {
    pub name: String,
    pub raw: RawTarget,
}

/// Named targets. No name occurs twice, and the entries are in the order of the names.
#[derive(Debug)]
pub struct TargetTable {
    entries: Vec<TargetEntry>,
}

/// The names are strictly increasing.
pub open spec fn strictly_sorted(names: Seq<Seq<char>>) -> bool {
    forall|i: int, j: int|
        0 <= i < j < names.len() ==> text_before(#[trigger] names[i], #[trigger] names[j])
}

spec fn entry_names(entries: Seq<TargetEntry>) -> Seq<Seq<char>> {
    Seq::new(entries.len(), |i: int| entries[i].name@)
}

spec fn entry_targets(entries: Seq<TargetEntry>) -> Seq<RawTargetView> {
    Seq::new(entries.len(), |i: int| entries[i].raw@)
}

impl TargetTable {
    #[verifier::type_invariant]
    spec fn sorted(self) -> bool {
        strictly_sorted(entry_names(self.entries@))
    }

    /// The names, in order.
    pub closed spec fn names(self) -> Seq<Seq<char>> {
        entry_names(self.entries@)
    }

    /// The targets, in the order of their names.
    pub closed spec fn raws(self) -> Seq<RawTargetView> {
        entry_targets(self.entries@)
    }

    /// A target has this name.
    pub open spec fn has(self, name: Seq<char>) -> bool {
        self.names().contains(name)
    }

    /// The target with this name.
    pub open spec fn at(self, name: Seq<char>) -> RawTargetView
        recommends
            self.has(name),
    {
        self.raws()[self.names().index_of(name)]
    }

    /// An empty table.
    pub fn new() -> (r: TargetTable)
        ensures
            r.names() == Seq::<Seq<char>>::empty(),
            r.raws() == Seq::<RawTargetView>::empty(),
    {
        let r = TargetTable { entries: Vec::new() };
        assert(r.names() =~= Seq::<Seq<char>>::empty());
        assert(r.raws() =~= Seq::<RawTargetView>::empty());
        r
    }

    /// The number of targets.
    pub fn len(&self) -> (r: usize)
        ensures
            r == self.names().len(),
            r == self.raws().len(),
    {
        self.entries.len()
    }

    /// Whether there is no target.
    pub fn is_empty(&self) -> (r: bool)
        ensures
            r == (self.names().len() == 0),
    {
        self.entries.len() == 0
    }

    /// The position of the first entry whose name does not come before `name`.
    fn position(&self, name: &str) -> (r: usize)
        ensures
            r <= self.entries@.len(),
            forall|i: int| 0 <= i < r ==> text_before(#[trigger] self.entries@[i].name@, name@),
            r < self.entries@.len() ==> !text_before(self.entries@[r as int].name@, name@),
    {
        let mut i: usize = 0;
        while i < self.entries.len()
            invariant
                i <= self.entries@.len(),
                forall|k: int| 0 <= k < i ==> text_before(#[trigger] self.entries@[k].name@, name@),
            decreases self.entries.len() - i,
        {
            if !text::comes_before(self.entries[i].name.as_str(), name) {
                return i;
            }
            i = i + 1;
        }
        i
    }

    /// The index of `name`, if a target has it.
    fn find(&self, name: &str) -> (r: Option<usize>)
        ensures
            match r {
                None => !self.has(name@),
                Some(i) => i < self.entries@.len() && self.entries@[i as int].name@ == name@
                    && self.has(name@) && self.at(name@) == self.entries@[i as int].raw@,
            },
    {
        proof {
            use_type_invariant(self);
        }
        let p = self.position(name);
        let ghost all = self.names();
        if p < self.entries.len() && text::same_text(self.entries[p].name.as_str(), name) {
            proof {
                assert(all[p as int] == name@);
                lemma_sorted_distinct(all, p as int, all.index_of(name@));
            }
            Some(p)
        } else {
            proof {
                if all.contains(name@) {
                    let k = all.index_of(name@);
                    assert(self.entries@[k].name@ == name@);
                    lemma_text_before_total(name@, name@);
                    if k > p {
                        // entries[p] < entries[k] == name, against the choice of p
                        assert(text_before(all[p as int], all[k]));
                    }
                }
            }
            None
        }
    }

    /// The target called `name`.
    pub fn get(&self, name: &str) -> (r: Option<&RawTarget>)
        ensures
            match r {
                None => !self.has(name@),
                Some(raw) => self.has(name@) && raw@ == self.at(name@),
            },
    {
        match self.find(name) {
            None => None,
            Some(i) => Some(&self.entries[i].raw),
        }
    }

    /// Whether a target is called `name`.
    pub fn contains_key(&self, name: &str) -> (r: bool)
        ensures
            r == self.has(name@),
    {
        self.find(name).is_some()
    }

    /// The names, in order.
    pub fn name_list(&self) -> (r: Vec<String>)
        ensures
            text::views(r@) == self.names(),
            strictly_sorted(self.names()),
    {
        proof {
            use_type_invariant(self);
        }
        let mut out: Vec<String> = Vec::new();
        let mut i: usize = 0;
        while i < self.entries.len()
            invariant
                i <= self.entries@.len(),
                out@.len() == i,
                forall|k: int| 0 <= k < i ==> #[trigger] out@[k]@ == self.entries@[k].name@,
            decreases self.entries.len() - i,
        {
            out.push(self.entries[i].name.clone());
            i = i + 1;
        }
        assert(text::views(out@) =~= self.names());
        out
    }

    /// Put `raw` into the table under `name`, in place of a target that has that name.
    pub fn insert(&mut self, name: String, raw: RawTarget)
        ensures
            final(self).has(name@),
            final(self).at(name@) == raw@,
            forall|n: Seq<char>| n != name@ ==> (final(self).has(n) <==> old(self).has(n)),
            forall|n: Seq<char>| #![trigger final(self).at(n)]
                n != name@ && old(self).has(n) ==> final(self).at(n) == old(self).at(n),
            final(self).names().len() == (if old(self).has(name@) {
                old(self).names().len()
            } else {
                old(self).names().len() + 1
            }),
    {
        proof {
            use_type_invariant(&*self);
        }
        let ghost before = *self;
        let ghost olds = before.names();
        let found = self.find(name.as_str());
        let place = match found {
            Some(i) => i,
            None => self.position(name.as_str()),
        };
        let mut entries: Vec<TargetEntry> = Vec::new();
        std::mem::swap(&mut entries, &mut self.entries);
        if found.is_some() {
            let _ = entries.remove(place);
        }
        let ghost key = name@;
        let ghost value = raw@;
        entries.insert(place, TargetEntry { name, raw });
        proof {
            let news = entry_names(entries@);
            if found.is_some() {
                assert(news =~= olds);
                assert(entry_targets(entries@) =~= before.raws().update(place as int, value));
            } else {
                assert(news =~= olds.insert(place as int, key));
                assert(entry_targets(entries@) =~= before.raws().insert(place as int, value));
                lemma_insert_sorted(olds, place as int, key);
            }
            assert(strictly_sorted(news));
            assert(news[place as int] == key);
            assert forall|n: Seq<char>| n != key implies (news.contains(n) <==> olds.contains(n)) by {
                if news.contains(n) {
                    let k = news.index_of(n);
                    if found.is_some() {
                        assert(olds[k] == n);
                    } else if k < place {
                        assert(olds[k] == n);
                    } else {
                        assert(olds[k - 1] == n);
                    }
                }
                if olds.contains(n) {
                    let k = olds.index_of(n);
                    if found.is_some() || k < place {
                        assert(news[k] == n);
                    } else {
                        assert(news[k + 1] == n);
                    }
                }
            }
        }
        self.entries = entries;
        proof {
            let news = self.names();
            lemma_sorted_distinct(news, place as int, news.index_of(key));
            assert forall|n: Seq<char>| #![trigger self.at(n)] n != key && before.has(n) implies self.at(
                n,
            ) == before.at(n) by {
                let k = olds.index_of(n);
                assert(olds[k] == n);
                if found.is_some() || k < place {
                    assert(news[k] == n);
                    lemma_sorted_distinct(news, k, news.index_of(n));
                } else {
                    assert(news[k + 1] == n);
                    lemma_sorted_distinct(news, k + 1, news.index_of(n));
                }
            }
        }
    }
}

/// In a strictly sorted sequence a name has one place.
pub proof fn lemma_sorted_distinct(names: Seq<Seq<char>>, i: int, j: int)
    requires
        strictly_sorted(names),
        0 <= i < names.len(),
        0 <= j < names.len(),
        names[i] == names[j],
    ensures
        i == j,
{
    lemma_text_before_total(names[i], names[j]);
    if i < j {
        assert(text_before(names[i], names[j]));
    } else if j < i {
        assert(text_before(names[j], names[i]));
    }
}

proof fn lemma_insert_sorted(names: Seq<Seq<char>>, p: int, key: Seq<char>)
    requires
        strictly_sorted(names),
        0 <= p <= names.len(),
        !names.contains(key),
        forall|i: int| 0 <= i < p ==> text_before(#[trigger] names[i], key),
        p < names.len() ==> !text_before(names[p], key),
    ensures
        strictly_sorted(names.insert(p, key)),
{
    let news = names.insert(p, key);
    if p < names.len() {
        assert(names.contains(names[p]));
        lemma_text_before_total(names[p], key);
    }
    assert forall|i: int, j: int| 0 <= i < j < news.len() implies text_before(
        #[trigger] news[i],
        #[trigger] news[j],
    ) by {
        if j < p {
            assert(text_before(names[i], names[j]));
        } else if j == p {
            assert(news[i] == names[i]);
        } else if i < p {
            assert(text_before(names[i], names[j - 1]));
        } else if i == p {
            if j - 1 > p {
                assert(text_before(names[p], names[j - 1]));
                lemma_text_before_transitive(key, names[p], names[j - 1]);
            }
        } else {
            assert(text_before(names[i - 1], names[j - 1]));
        }
    }
}

} // verus!
