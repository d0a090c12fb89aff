//! The cache store: a key-value map of strings with no expiry.
//!
//! Staleness is controlled entirely by explicit invalidation from the
//! repository, so the store offers exactly what the repository leans
//! on: lookup, overwriting insertion (`set`, and `update` as its alias
//! for existing keys), and bulk deletion of every key under a prefix.
//! The view of the store is the map from key text to value text.

use vstd::prelude::*;
use vstd::string::StrSliceExecFns;

verus! {

/// `p` is how `s` begins.
pub open spec fn spec_starts_with(s: Seq<char>, p: Seq<char>) -> bool {
    p.len() <= s.len() && s.subrange(0, p.len() as int) == p
}

/// The map an entry list denotes; later entries would win, though the
/// store never keeps a key twice.
pub open spec fn assoc_map(s: Seq<(String, String)>) -> Map<Seq<char>, Seq<char>>
    decreases s.len(),
{
    if s.len() == 0 {
        Map::empty()
    } else {
        assoc_map(s.drop_last()).insert(s.last().0@, s.last().1@)
    }
}

/// Every key is kept at most once.
pub open spec fn uniq_keys(s: Seq<(String, String)>) -> bool {
    forall|i: int, j: int| 0 <= i < j < s.len() ==> s[i].0@ != s[j].0@
}

/// What the entry list says, read as a map: a key is present exactly
/// when some entry carries it, and it maps to that entry's value.
pub proof fn lemma_assoc_map(s: Seq<(String, String)>)
    ensures
        forall|k: Seq<char>|
            #[trigger] assoc_map(s).contains_key(k) <==> exists|i: int|
                0 <= i < s.len() && s[i].0@ == k,
        uniq_keys(s) ==> forall|i: int|
            0 <= i < s.len() ==> assoc_map(s)[#[trigger] s[i].0@] == s[i].1@,
    decreases s.len(),
{
    if s.len() == 0 {
    } else {
        let t = s.drop_last();
        lemma_assoc_map(t);
        assert(uniq_keys(s) ==> uniq_keys(t));
        assert forall|k: Seq<char>| #[trigger]
            assoc_map(s).contains_key(k) implies exists|i: int|
            0 <= i < s.len() && s[i].0@ == k by {
            if k == s.last().0@ {
                assert(s[s.len() - 1].0@ == k);
            } else {
                assert(assoc_map(t).contains_key(k));
                let i = choose|i: int| 0 <= i < t.len() && t[i].0@ == k;
                assert(s[i].0@ == k);
            }
        }
        assert forall|k: Seq<char>|
            (exists|i: int| 0 <= i < s.len() && s[i].0@ == k) implies #[trigger] assoc_map(
            s,
        ).contains_key(k) by {
            let i = choose|i: int| 0 <= i < s.len() && s[i].0@ == k;
            if i == s.len() - 1 {
                assert(assoc_map(s).contains_key(s.last().0@));
            } else {
                assert(t[i].0@ == k);
                assert(assoc_map(t).contains_key(k));
            }
        }
        if uniq_keys(s) {
            assert forall|i: int| 0 <= i < s.len() implies assoc_map(s)[#[trigger] s[i].0@]
                == s[i].1@ by {
                if i == s.len() - 1 {
                } else {
                    assert(t[i].0@ == s[i].0@ && t[i].1@ == s[i].1@);
                    assert(assoc_map(t)[t[i].0@] == t[i].1@);
                    assert(s[i].0@ != s.last().0@);
                }
            }
        }
    }
}

/// The cache store. One is built at process start and handed to the
/// repository; nothing else writes to it.
pub struct CacheStore {
    entries: Vec<(String, String)>,
}

impl View for CacheStore {
    type V = Map<Seq<char>, Seq<char>>;

    closed spec fn view(&self) -> Map<Seq<char>, Seq<char>> {
        assoc_map(self.entries@)
    }
}

impl CacheStore {
    /// The store keeps each key once.
    pub closed spec fn wf(&self) -> bool {
        uniq_keys(self.entries@)
    }

    /// An empty store.
    pub fn new() -> (c: CacheStore)
        ensures
            c@ == Map::<Seq<char>, Seq<char>>::empty(),
            c.wf(),
    {
        let c = CacheStore { entries: Vec::new() };
        proof {
            assert(c.entries@.len() == 0);
        }
        c
    }

    /// Look a key up; a copy of the cached text, if the key is present.
    pub fn get(&self, key: &str) -> (r: Option<String>)
        requires
            self.wf(),
        ensures
            match r {
                Some(v) => self@.contains_key(key@) && v@ == self@[key@],
                None => !self@.contains_key(key@),
            },
    {
        proof {
            lemma_assoc_map(self.entries@);
        }
        let n = self.entries.len();
        let mut i: usize = 0;
        while i < n
            invariant
                0 <= i <= n,
                n == self.entries@.len(),
                self.wf(),
                forall|j: int| 0 <= j < i ==> self.entries@[j].0@ != key@,
            decreases n - i,
        {
            if crate::codec::str_eq(self.entries[i].0.as_str(), key) {
                proof {
                    lemma_assoc_map(self.entries@);
                    assert(self.entries@[i as int].0@ == key@);
                }
                return Some(self.entries[i].1.clone());
            }
            i = i + 1;
        }
        proof {
            lemma_assoc_map(self.entries@);
            if self@.contains_key(key@) {
                let j = choose|j: int| 0 <= j < self.entries@.len() && self.entries@[j].0@ == key@;
                assert(false);
            }
        }
        None
    }

    /// Store text under a key, overwriting whatever was there.
    pub fn set(&mut self, key: String, value: String)
        requires
            old(self).wf(),
        ensures
            final(self).wf(),
            final(self)@ == old(self)@.insert(key@, value@),
    {
        proof {
            lemma_assoc_map(self.entries@);
        }
        let n = self.entries.len();
        let mut i: usize = 0;
        while i < n
            invariant
                0 <= i <= n,
                n == self.entries@.len(),
                self.wf(),
                self == old(self),
                forall|j: int| 0 <= j < i ==> self.entries@[j].0@ != key@,
            decreases n - i,
        {
            if crate::codec::str_eq(self.entries[i].0.as_str(), key.as_str()) {
                let ghost olds = self.entries@;
                self.entries.set(i, (key, value));
                proof {
                    let news = self.entries@;
                    assert(news =~= olds.update(i as int, (key, value)));
                    assert forall|p: int, q: int| 0 <= p < q < news.len() implies news[p].0@
                        != news[q].0@ by {
                        assert(olds[p].0@ != olds[q].0@);
                        if p == i as int {
                            assert(news[p].0@ == olds[i as int].0@);
                        }
                        if q == i as int {
                            assert(news[q].0@ == olds[i as int].0@);
                        }
                    }
                    lemma_assoc_map(olds);
                    lemma_assoc_map(news);
                    assert(final(self)@ =~= old(self)@.insert(key@, value@)) by {
                        assert forall|k: Seq<char>|
                            assoc_map(news).contains_key(k) == old(self)@.insert(
                                key@,
                                value@,
                            ).contains_key(k) by {
                            if assoc_map(news).contains_key(k) {
                                let w = choose|w: int|
                                    0 <= w < news.len() && news[w].0@ == k;
                                if w == i as int {
                                } else {
                                    assert(olds[w].0@ == k);
                                }
                            }
                            if old(self)@.insert(key@, value@).contains_key(k) {
                                if k == key@ {
                                    assert(news[i as int].0@ == k);
                                } else {
                                    assert(assoc_map(olds).contains_key(k));
                                    let w = choose|w: int|
                                        0 <= w < olds.len() && olds[w].0@ == k;
                                    assert(w != i as int);
                                    assert(news[w].0@ == k);
                                }
                            }
                        }
                        assert forall|k: Seq<char>|
                            assoc_map(news).contains_key(k) implies assoc_map(news)[k] == old(
                            self,
                        )@.insert(key@, value@)[k] by {
                            let w = choose|w: int| 0 <= w < news.len() && news[w].0@ == k;
                            assert(assoc_map(news)[news[w].0@] == news[w].1@);
                            if w == i as int {
                                assert(k == key@);
                            } else {
                                assert(olds[w].0@ == k);
                                assert(k != key@) by {
                                    assert(olds[i as int].0@ == key@);
                                }
                                assert(assoc_map(olds)[olds[w].0@] == olds[w].1@);
                            }
                        }
                    }
                }
                return ;
            }
            i = i + 1;
        }
        let ghost olds = self.entries@;
        self.entries.push((key, value));
        proof {
            let news = self.entries@;
            assert(news.drop_last() =~= olds);
            assert(news.last() == (key, value));
            assert forall|p: int, q: int| 0 <= p < q < news.len() implies news[p].0@
                != news[q].0@ by {
                if q == news.len() - 1 {
                    assert(news[p].0@ == olds[p].0@);
                } else {
                    assert(olds[p].0@ != olds[q].0@);
                }
            }
            assert(assoc_map(news) == assoc_map(olds).insert(key@, value@));
        }
    }

    /// Overwrite an existing entry; the store treats it as `set`.
    pub fn update(&mut self, key: String, value: String)
        requires
            old(self).wf(),
        ensures
            final(self).wf(),
            final(self)@ == old(self)@.insert(key@, value@),
    {
        self.set(key, value);
    }

    /// Drop every entry whose key starts with `prefix`.
    pub fn remove_starting_with(&mut self, prefix: &str)
        requires
            old(self).wf(),
        ensures
            final(self).wf(),
            final(self)@ == Map::<Seq<char>, Seq<char>>::new(
                |k: Seq<char>| old(self)@.contains_key(k) && !spec_starts_with(k, prefix@),
                |k: Seq<char>| old(self)@[k],
            ),
    {
        let ghost olds = self.entries@;
        let ghost target = Map::<Seq<char>, Seq<char>>::new(
            |k: Seq<char>| old(self)@.contains_key(k) && !spec_starts_with(k, prefix@),
            |k: Seq<char>| old(self)@[k],
        );
        proof {
            lemma_assoc_map(olds);
        }
        let n = self.entries.len();
        let mut kept: Vec<(String, String)> = Vec::new();
        let mut i: usize = 0;
        proof {
            assert(kept@.len() == 0);
        }
        while i < n
            invariant
                0 <= i <= n,
                n == olds.len(),
                olds == old(self).entries@,
                uniq_keys(olds),
                self == old(self),
                uniq_keys(kept@),
                forall|k: Seq<char>|
                    #[trigger] assoc_map(kept@).contains_key(k) <==> ((exists|j: int|
                        0 <= j < i && olds[j].0@ == k) && !spec_starts_with(k, prefix@)),
                forall|k: Seq<char>|
                    #[trigger] assoc_map(kept@).contains_key(k) ==> assoc_map(kept@)[k]
                        == assoc_map(olds)[k],
            decreases n - i,
        {
            let e = (self.entries[i].0.clone(), self.entries[i].1.clone());
            proof {
                assert(e.0@ == olds[i as int].0@ && e.1@ == olds[i as int].1@);
            }
            if !str_starts_with(e.0.as_str(), prefix) {
                let ghost oldkept = kept@;
                kept.push(e);
                proof {
                    let news = kept@;
                    assert(news.drop_last() =~= oldkept);
                    assert(news.last().0@ == olds[i as int].0@);
                    assert forall|p: int, q: int| 0 <= p < q < news.len() implies news[p].0@
                        != news[q].0@ by {
                        if q == news.len() - 1 {
                            assert(assoc_map(oldkept).contains_key(news[p].0@)) by {
                                lemma_assoc_map(oldkept);
                                assert(oldkept[p].0@ == news[p].0@);
                            }
                            if news[p].0@ == olds[i as int].0@ {
                                let j = choose|j: int|
                                    0 <= j < i && olds[j].0@ == news[p].0@;
                                assert(false);
                            }
                        } else {
                            assert(oldkept[p].0@ != oldkept[q].0@);
                        }
                    }
                    assert(assoc_map(news) == assoc_map(oldkept).insert(
                        olds[i as int].0@,
                        olds[i as int].1@,
                    ));
                    lemma_assoc_map(olds);
                    assert forall|k: Seq<char>| #[trigger]
                        assoc_map(news).contains_key(k) implies assoc_map(news)[k] == assoc_map(
                        olds,
                    )[k] by {
                        if k == olds[i as int].0@ {
                            assert(assoc_map(olds)[olds[i as int].0@] == olds[i as int].1@);
                        }
                    }
                }
            } else {
                proof {
                    assert forall|k: Seq<char>| #[trigger]
                        assoc_map(kept@).contains_key(k) implies ((exists|j: int|
                        0 <= j < i + 1 && olds[j].0@ == k) && !spec_starts_with(
                        k,
                        prefix@,
                    )) by {}
                    assert forall|k: Seq<char>|
                        ((exists|j: int| 0 <= j < i + 1 && olds[j].0@ == k)
                            && !spec_starts_with(k, prefix@)) implies #[trigger] assoc_map(
                        kept@,
                    ).contains_key(k) by {
                        let j = choose|j: int| 0 <= j < i + 1 && olds[j].0@ == k;
                        assert(j != i as int);
                    }
                }
            }
            i = i + 1;
        }
        self.entries = kept;
        proof {
            lemma_assoc_map(olds);
            assert(final(self)@ =~= target) by {
                assert forall|k: Seq<char>|
                    assoc_map(kept@).contains_key(k) == target.contains_key(k) by {
                    if assoc_map(kept@).contains_key(k) {
                        let j = choose|j: int| 0 <= j < n && olds[j].0@ == k;
                        assert(assoc_map(olds).contains_key(k));
                    }
                    if target.contains_key(k) {
                        assert(assoc_map(olds).contains_key(k));
                        let j = choose|j: int| 0 <= j < olds.len() && olds[j].0@ == k;
                        assert(0 <= j < n && olds[j].0@ == k);
                    }
                }
            }
        }
    }
}

/// Whether `s` starts with `p`, character for character.
pub fn str_starts_with(s: &str, p: &str) -> (r: bool)
    ensures
        r == spec_starts_with(s@, p@),
{
    let sl = s.unicode_len();
    let pl = p.unicode_len();
    if pl > sl {
        return false;
    }
    let mut i: usize = 0;
    while i < pl
        invariant
            0 <= i <= pl,
            pl <= sl,
            sl == s@.len(),
            pl == p@.len(),
            forall|j: int| 0 <= j < i ==> s@[j] == p@[j],
        decreases pl - i,
    {
        if s.get_char(i) != p.get_char(i) {
            proof {
                if spec_starts_with(s@, p@) {
                    assert(s@.subrange(0, p@.len() as int)[i as int] == p@[i as int]);
                    assert(false);
                }
            }
            return false;
        }
        i = i + 1;
    }
    proof {
        assert(s@.subrange(0, p@.len() as int) =~= p@);
    }
    true
}

} // verus!
