//! Bookkeeping of the editor's document tabs and of the ids of the nodes of
//! an NBT tree view.
use vstd::prelude::*;

use std::sync::Arc;

verus! {

/// Id of a node of the NBT tree: the path of child indices to its parent,
/// and its own index under that parent.
#[derive(Debug, Clone, PartialEq, Eq, Hash, Default)]
pub struct NbtNodeId {
    parent: Arc<Vec<usize>>,
    idx: usize,
}

/// Ids of the children of a node, handed out in index order.
#[derive(Debug, Clone, PartialEq, Eq)]
pub struct NbtNodeChilds {
    parent: Arc<Vec<usize>>,
    pos: usize,
}

impl NbtNodeId {
    pub closed spec fn spec_parent(&self) -> Seq<usize> {
        self.parent@
    }

    pub closed spec fn spec_idx(&self) -> usize {
        self.idx
    }

    /// The node at index `idx` under the node with path `parent`.
    pub fn new(parent: Vec<usize>, idx: usize) -> (r: Self)
        ensures
            r.spec_parent() == parent@,
            r.spec_idx() == idx,
    {
        NbtNodeId { parent: Arc::new(parent), idx }
    }

    /// The path of the node's parent.
    pub fn parent(&self) -> (r: &[usize])
        ensures
            r@ == self.spec_parent(),
    {
        self.parent.as_slice()
    }

    /// The node's index under its parent.
    pub fn idx(&self) -> (r: usize)
        ensures
            r == self.spec_idx(),
    {
        self.idx
    }

    /// The children of this node: their parent path is this node's path
    /// extended with its index, and they start at index 0.
    pub fn childs(self) -> (r: NbtNodeChilds)
        ensures
            r.spec_parent() == self.spec_parent().push(self.spec_idx()),
            r.spec_pos() == 0,
    {
        let mut path: Vec<usize> = (*self.parent).clone();
        path.push(self.idx);
        proof {
            assert(path@ =~= self.parent@.push(self.idx));
        }
        NbtNodeChilds { parent: Arc::new(path), pos: 0 }
    }
}

impl NbtNodeChilds {
    pub closed spec fn spec_parent(&self) -> Seq<usize> {
        self.parent@
    }

    /// Index of the next child to hand out.
    pub closed spec fn spec_pos(&self) -> usize {
        self.pos
    }

    /// Skips `n` children and hands out the next one; gives nothing, and
    /// moves nowhere, when the index would not fit in a `usize`.
    pub fn nth(&mut self, n: usize) -> (r: Option<NbtNodeId>)
        ensures
            final(self).spec_parent() == old(self).spec_parent(),
            old(self).spec_pos() + n + 1 <= usize::MAX ==> (r matches Some(id) && id.spec_parent()
                == old(self).spec_parent() && id.spec_idx() == old(self).spec_pos() + n && final(
                self).spec_pos() == old(self).spec_pos() + n + 1),
            old(self).spec_pos() + n + 1 > usize::MAX ==> r is None && final(self).spec_pos()
                == old(self).spec_pos(),
    {
        let i = match self.pos.checked_add(n) {
            Some(i) => i,
            None => {
                return None;
            },
        };
        let next = match i.checked_add(1) {
            Some(next) => next,
            None => {
                return None;
            },
        };
        self.pos = next;
        Some(NbtNodeId { parent: self.parent.clone(), idx: i })
    }

    /// The next child.
    pub fn next(&mut self) -> (r: Option<NbtNodeId>)
        ensures
            final(self).spec_parent() == old(self).spec_parent(),
            old(self).spec_pos() < usize::MAX ==> (r matches Some(id) && id.spec_parent() == old(
                self).spec_parent() && id.spec_idx() == old(self).spec_pos() && final(self).spec_pos()
                == old(self).spec_pos() + 1),
            old(self).spec_pos() == usize::MAX ==> r is None && final(self).spec_pos() == old(self).spec_pos(),
    {
        self.nth(0)
    }
}

/// Titles are unique along the vector.
pub open spec fn unique_titles(s: Seq<(String, u32)>) -> bool {
    forall|i: int, j: int| 0 <= i < s.len() && 0 <= j < s.len() && i != j ==> s[i].0@ != s[j].0@
}

pub open spec fn has_title(s: Seq<(String, u32)>, t: Seq<char>) -> bool {
    exists|i: int| 0 <= i < s.len() && s[i].0@ == t
}

/// The map from title to count that a vector of unique titles stands for.
pub open spec fn titles_to_map(s: Seq<(String, u32)>) -> Map<Seq<char>, u32> {
    Map::new(
        |t: Seq<char>| has_title(s, t),
        |t: Seq<char>| s[choose|i: int| 0 <= i < s.len() && s[i].0@ == t].1,
    )
}

proof fn lemma_title_at(s: Seq<(String, u32)>, i: int)
    requires
        unique_titles(s),
        0 <= i < s.len(),
    ensures
        titles_to_map(s).dom().contains(s[i].0@),
        titles_to_map(s)[s[i].0@] == s[i].1,
{
    assert(has_title(s, s[i].0@));
    let j = choose|j: int| 0 <= j < s.len() && s[j].0@ == s[i].0@;
    assert(j == i);
}

/// Every title in `counts` counts at least one tab.
pub open spec fn counts_positive(counts: Map<Seq<char>, u32>) -> bool {
    forall|t: Seq<char>| counts.dom().contains(t) ==> #[trigger] counts[t] > 0
}

/// Open tabs, counted per short title, and the last tab id handed out.
pub struct TabRegistry {
    per_short_title: Vec<(String, u32)>,
    last_tab_id: usize,
}

impl TabRegistry {
    /// No title occurs twice, and every title counts at least one tab.
    #[verifier::type_invariant]
    spec fn wf(&self) -> bool {
        &&& unique_titles(self.per_short_title@)
        &&& forall|i: int|
            0 <= i < self.per_short_title@.len() ==> #[trigger] self.per_short_title@[i].1 > 0
    }

    /// Number of open tabs per short title.
    pub closed spec fn spec_counts(&self) -> Map<Seq<char>, u32> {
        titles_to_map(self.per_short_title@)
    }

    pub closed spec fn spec_last_tab_id(&self) -> usize {
        self.last_tab_id
    }

    /// Count of `title`, zero when absent.
    pub open spec fn spec_count_of(&self, title: Seq<char>) -> u32 {
        if self.spec_counts().dom().contains(title) {
            self.spec_counts()[title]
        } else {
            0
        }
    }

    /// No tab open and no id handed out yet.
    pub fn new() -> (r: Self)
        ensures
            r.spec_counts() == Map::<Seq<char>, u32>::empty(),
            r.spec_last_tab_id() == 0,
            counts_positive(r.spec_counts()),
    {
        let r = TabRegistry { per_short_title: Vec::new(), last_tab_id: 0 };
        assert(r.spec_counts() =~= Map::<Seq<char>, u32>::empty());
        r
    }

    /// Index of `title` in the vector, if present.
    fn find(&self, title: &String) -> (r: Option<usize>)
        ensures
            r matches Some(i) ==> i < self.per_short_title@.len() && self.per_short_title@[i as int].0@
                == title@,
            r is None ==> !has_title(self.per_short_title@, title@),
    {
        let mut i: usize = 0;
        while i < self.per_short_title.len()
            invariant
                i <= self.per_short_title@.len(),
                forall|j: int| 0 <= j < i ==> self.per_short_title@[j].0@ != title@,
            decreases self.per_short_title@.len() - i,
        {
            if self.per_short_title[i].0 == *title {
                return Some(i);
            }
            i = i + 1;
        }
        None
    }

    /// The next tab id, unless the ids are exhausted.
    pub fn next_tab_id(&mut self) -> (r: Option<usize>)
        ensures
            final(self).spec_counts() == old(self).spec_counts(),
            old(self).spec_last_tab_id() < usize::MAX ==> r == Some(
                (old(self).spec_last_tab_id() + 1) as usize,
            ) && final(self).spec_last_tab_id() == old(self).spec_last_tab_id() + 1,
            old(self).spec_last_tab_id() == usize::MAX ==> r is None && final(self).spec_last_tab_id() == old(self).spec_last_tab_id(),
    {
        proof {
            use_type_invariant(&*self);
        }
        if self.last_tab_id == usize::MAX {
            None
        } else {
            self.last_tab_id = self.last_tab_id + 1;
            Some(self.last_tab_id)
        }
    }

    /// Registers a tab titled `title_short`: takes the next tab id and bumps
    /// the count of the title. Returns the id the tab is to take, or nothing
    /// when the ids or the title's count are exhausted (an id is used up in
    /// the second case all the same).
    pub fn insert(&mut self, title_short: &String) -> (r: Option<usize>)
        ensures
            counts_positive(final(self).spec_counts()),
            old(self).spec_last_tab_id() == usize::MAX ==> r is None && final(self).spec_counts()
                == old(self).spec_counts() && final(self).spec_last_tab_id() == old(self).spec_last_tab_id(),
            old(self).spec_last_tab_id() < usize::MAX ==> final(self).spec_last_tab_id() == old(self).spec_last_tab_id() + 1,
            old(self).spec_last_tab_id() < usize::MAX && old(self).spec_count_of(title_short@)
                == u32::MAX ==> r is None && final(self).spec_counts() == old(self).spec_counts(),
            old(self).spec_last_tab_id() < usize::MAX && old(self).spec_count_of(title_short@)
                < u32::MAX ==> r == Some((old(self).spec_last_tab_id() + 1) as usize) && final(self).spec_counts() == old(self).spec_counts().insert(
                title_short@,
                (old(self).spec_count_of(title_short@) + 1) as u32,
            ),
    {
        proof {
            use_type_invariant(&*self);
        }
        let id = match self.next_tab_id() {
            Some(id) => id,
            None => {
                return None;
            },
        };
        proof {
            use_type_invariant(&*self);
        }
        let found = self.find(title_short);
        let mut titles: Vec<(String, u32)> = Vec::new();
        std::mem::swap(&mut titles, &mut self.per_short_title);
        let ghost s = titles@;
        match found {
            Some(i) => {
                proof {
                    lemma_title_at(s, i as int);
                }
                let count = titles[i].1;
                if count == u32::MAX {
                    self.per_short_title = titles;
                    None
                } else {
                    let key = titles[i].0.clone();
                    titles.set(i, (key, count + 1));
                    proof {
                        let t = titles@;
                        assert(unique_titles(t)) by {
                            assert forall|a: int, b: int|
                                0 <= a < t.len() && 0 <= b < t.len() && a != b implies t[a].0@
                                != t[b].0@ by {
                                assert(t[a].0@ == s[a].0@);
                                assert(t[b].0@ == s[b].0@);
                            }
                        }
                        lemma_update_title(s, i as int, key, (count + 1) as u32);
                    }
                    self.per_short_title = titles;
                    Some(id)
                }
            },
            None => {
                titles.push((title_short.clone(), 1));
                proof {
                    assert(titles@.drop_last() =~= s);
                    lemma_push_title(s, title_short@, titles@);
                }
                self.per_short_title = titles;
                Some(id)
            },
        }
    }

    /// Unregisters a tab titled `title_short`: lowers the count of the title
    /// and forgets the title once its count reaches zero.
    pub fn on_close(&mut self, title_short: &String)
        ensures
            counts_positive(final(self).spec_counts()),
            final(self).spec_last_tab_id() == old(self).spec_last_tab_id(),
            old(self).spec_count_of(title_short@) == 0 ==> final(self).spec_counts() == old(self).spec_counts(),
            old(self).spec_count_of(title_short@) == 1 ==> final(self).spec_counts() == old(self).spec_counts().remove(title_short@),
            old(self).spec_count_of(title_short@) > 1 ==> final(self).spec_counts() == old(self).spec_counts().insert(
                title_short@,
                (old(self).spec_count_of(title_short@) - 1) as u32,
            ),
    {
        proof {
            use_type_invariant(&*self);
        }
        let found = self.find(title_short);
        let mut titles: Vec<(String, u32)> = Vec::new();
        std::mem::swap(&mut titles, &mut self.per_short_title);
        let ghost s = titles@;
        match found {
            Some(i) => {
                proof {
                    lemma_title_at(s, i as int);
                }
                let count = titles[i].1;
                if count == 0 {
                } else if count == 1 {
                    titles.remove(i);
                    proof {
                        lemma_remove_title(s, i as int, titles@);
                    }
                } else {
                    let key = titles[i].0.clone();
                    titles.set(i, (key, count - 1));
                    proof {
                        let t = titles@;
                        assert(unique_titles(t)) by {
                            assert forall|a: int, b: int|
                                0 <= a < t.len() && 0 <= b < t.len() && a != b implies t[a].0@
                                != t[b].0@ by {
                                assert(t[a].0@ == s[a].0@);
                                assert(t[b].0@ == s[b].0@);
                            }
                        }
                        lemma_update_title(s, i as int, key, (count - 1) as u32);
                    }
                }
            },
            None => {
                proof {
                    assert(!titles_to_map(s).dom().contains(title_short@));
                }
            },
        }
        self.per_short_title = titles;
    }

    /// Number of open tabs titled `title_short`.
    pub fn count_of(&self, title_short: &String) -> (r: u32)
        ensures
            r == self.spec_count_of(title_short@),
            counts_positive(self.spec_counts()),
    {
        proof {
            use_type_invariant(self);
        }
        match self.find(title_short) {
            Some(i) => {
                proof {
                    lemma_title_at(self.per_short_title@, i as int);
                }
                self.per_short_title[i].1
            },
            None => 0,
        }
    }

    /// Whether tabs titled `title_short` show their long title, which they do
    /// while more than one of them is open.
    pub fn uses_long_title(&self, title_short: &String) -> (r: bool)
        ensures
            r == (self.spec_count_of(title_short@) > 1),
            counts_positive(self.spec_counts()),
    {
        self.count_of(title_short) > 1
    }
}

proof fn lemma_update_title(s: Seq<(String, u32)>, i: int, key: String, v: u32)
    requires
        unique_titles(s),
        0 <= i < s.len(),
        key@ == s[i].0@,
        unique_titles(s.update(i, (key, v))),
    ensures
        titles_to_map(s.update(i, (key, v))) =~= titles_to_map(s).insert(key@, v),
{
    let t = s.update(i, (key, v));
    assert forall|k: Seq<char>| has_title(t, k) <==> (has_title(s, k) || k == key@) by {
        if has_title(t, k) {
            let j = choose|j: int| 0 <= j < t.len() && t[j].0@ == k;
            if j != i {
                assert(s[j].0@ == k);
            }
        }
        if has_title(s, k) {
            let j = choose|j: int| 0 <= j < s.len() && s[j].0@ == k;
            assert(t[j].0@ == k);
        }
        if k == key@ {
            assert(t[i].0@ == k);
        }
    }
    assert forall|k: Seq<char>| #[trigger] titles_to_map(t).dom().contains(k) implies titles_to_map(
        t,
    )[k] == titles_to_map(s).insert(key@, v)[k] by {
        let j = choose|j: int| 0 <= j < t.len() && t[j].0@ == k;
        lemma_title_at(t, j);
        if j != i {
            lemma_title_at(s, j);
        }
    }
}

proof fn lemma_push_title(s: Seq<(String, u32)>, title: Seq<char>, t: Seq<(String, u32)>)
    requires
        unique_titles(s),
        !has_title(s, title),
        t.len() == s.len() + 1,
        t.drop_last() == s,
        t.last().0@ == title,
        t.last().1 == 1,
    ensures
        unique_titles(t),
        titles_to_map(t) =~= titles_to_map(s).insert(title, 1),
{
    assert forall|a: int| 0 <= a < s.len() implies t[a] == s[a] by {
        assert(t.drop_last()[a] == t[a]);
    }
    assert forall|a: int, b: int| 0 <= a < t.len() && 0 <= b < t.len() && a != b implies t[a].0@
        != t[b].0@ by {
        if a == s.len() {
            assert(b < s.len());
        } else if b == s.len() {
            assert(a < s.len());
        }
    }
    assert forall|k: Seq<char>| has_title(t, k) <==> (has_title(s, k) || k == title) by {
        if has_title(t, k) {
            let j = choose|j: int| 0 <= j < t.len() && t[j].0@ == k;
            if j < s.len() {
                assert(s[j].0@ == k);
            }
        }
        if has_title(s, k) {
            let j = choose|j: int| 0 <= j < s.len() && s[j].0@ == k;
            assert(t[j].0@ == k);
        }
        if k == title {
            assert(t[s.len() as int].0@ == k);
        }
    }
    assert forall|k: Seq<char>| #[trigger] titles_to_map(t).dom().contains(k) implies titles_to_map(
        t,
    )[k] == titles_to_map(s).insert(title, 1)[k] by {
        let j = choose|j: int| 0 <= j < t.len() && t[j].0@ == k;
        lemma_title_at(t, j);
        if j < s.len() {
            lemma_title_at(s, j);
        }
    }
}

proof fn lemma_remove_title(s: Seq<(String, u32)>, i: int, t: Seq<(String, u32)>)
    requires
        unique_titles(s),
        0 <= i < s.len(),
        t == s.remove(i),
    ensures
        unique_titles(t),
        titles_to_map(t) =~= titles_to_map(s).remove(s[i].0@),
{
    assert forall|a: int| 0 <= a < t.len() implies t[a] == s[if a < i {
        a
    } else {
        a + 1
    }] by {}
    assert forall|a: int, b: int| 0 <= a < t.len() && 0 <= b < t.len() && a != b implies t[a].0@
        != t[b].0@ by {
        let a2 = if a < i {
            a
        } else {
            a + 1
        };
        let b2 = if b < i {
            b
        } else {
            b + 1
        };
        assert(t[a] == s[a2]);
        assert(t[b] == s[b2]);
    }
    assert forall|k: Seq<char>| has_title(t, k) <==> (has_title(s, k) && k != s[i].0@) by {
        if has_title(t, k) {
            let j = choose|j: int| 0 <= j < t.len() && t[j].0@ == k;
            let j2 = if j < i {
                j
            } else {
                j + 1
            };
            assert(t[j] == s[j2]);
            assert(s[j2].0@ == k);
        }
        if has_title(s, k) && k != s[i].0@ {
            let j = choose|j: int| 0 <= j < s.len() && s[j].0@ == k;
            let j2 = if j < i {
                j
            } else {
                j - 1
            };
            assert(t[j2] == s[j]);
        }
    }
    assert forall|k: Seq<char>| #[trigger] titles_to_map(t).dom().contains(k) implies titles_to_map(
        t,
    )[k] == titles_to_map(s).remove(s[i].0@)[k] by {
        let j = choose|j: int| 0 <= j < t.len() && t[j].0@ == k;
        lemma_title_at(t, j);
        let j2 = if j < i {
            j
        } else {
            j + 1
        };
        assert(t[j] == s[j2]);
        lemma_title_at(s, j2);
    }
}

/// Closing a tab undoes the count that opening it added: on any registry
/// (whose counts are all positive), registering a title and then
/// unregistering it leaves the counts as they were.
pub proof fn lemma_insert_then_close(counts: Map<Seq<char>, u32>, title: Seq<char>)
    requires
        counts_positive(counts),
        (if counts.dom().contains(title) {
            counts[title]
        } else {
            0
        }) < u32::MAX,
    ensures
        ({
            let c = if counts.dom().contains(title) {
                counts[title]
            } else {
                0
            };
            let after = counts.insert(title, (c + 1) as u32);
            let c2 = after[title];
            let closed = if c2 == 1 {
                after.remove(title)
            } else {
                after.insert(title, (c2 - 1) as u32)
            };
            closed =~= counts
        }),
{
}

} // verus!
