use vstd::prelude::*;

verus! {

/// One signature key together with the words that share it, in the order they
/// were first seen.
pub struct IndexEntry {
    key: String,
    words: Vec<String>,
}

/// A dictionary index: every signature key seen so far, each with its words.
/// Viewed as a map from key characters to the word sequences.
pub struct WordIndex {
    entries: Vec<IndexEntry>,
}

/// The keys of the entries, in entry order.
spec fn keys_of(es: Seq<IndexEntry>) -> Seq<Seq<char>> {
    es.map_values(|e: IndexEntry| e.key@)
}

/// The map that a sequence of entries stands for.
spec fn map_of(es: Seq<IndexEntry>) -> Map<Seq<char>, Seq<Seq<char>>>
    decreases es.len(),
{
    if es.len() == 0 {
        Map::empty()
    } else {
        map_of(es.drop_last()).insert(es.last().key@, es.last().words.deep_view())
    }
}

/// A key is in the map exactly when some entry carries it.
proof fn lemma_map_of_dom(es: Seq<IndexEntry>, k: Seq<char>)
    ensures
        map_of(es).contains_key(k) <==> keys_of(es).contains(k),
    decreases es.len(),
{
    if es.len() > 0 {
        let front = es.drop_last();
        lemma_map_of_dom(front, k);
        assert(map_of(es) == map_of(front).insert(es.last().key@, es.last().words.deep_view()));
        if map_of(es).contains_key(k) {
            if k == es.last().key@ {
                assert(keys_of(es)[es.len() - 1] == k);
            } else {
                assert(map_of(front).contains_key(k));
                assert(keys_of(front).contains(k));
                let j = choose|j: int|
                    0 <= j < keys_of(front).len() && #[trigger] keys_of(front)[j] == k;
                assert(front[j].key@ == k);
                assert(front[j] == es[j]);
                assert(keys_of(es)[j] == k);
            }
        }
        if keys_of(es).contains(k) {
            let j = choose|j: int| 0 <= j < keys_of(es).len() && #[trigger] keys_of(es)[j] == k;
            assert(es[j].key@ == k);
            if j == es.len() - 1 {
                assert(map_of(es).contains_key(k));
            } else {
                assert(front[j] == es[j]);
                assert(keys_of(front)[j] == k);
                assert(keys_of(front).contains(k));
                assert(map_of(front).contains_key(k));
            }
        }
    }
}

/// With pairwise-distinct keys, the entry that carries a key gives its value
/// in the map.
proof fn lemma_map_of_get(es: Seq<IndexEntry>, j: int)
    requires
        keys_of(es).no_duplicates(),
        0 <= j < es.len(),
    ensures
        map_of(es).contains_key(es[j].key@),
        map_of(es)[es[j].key@] == es[j].words.deep_view(),
    decreases es.len(),
{
    if j == es.len() - 1 {
    } else {
        assert(keys_of(es).drop_last() =~= keys_of(es.drop_last()));
        assert(keys_of(es)[j] == es[j].key@ && keys_of(es)[es.len() - 1] == es.last().key@);
        lemma_map_of_get(es.drop_last(), j);
        assert(es.drop_last()[j] == es[j]);
    }
}

/// Replacing an entry's words, key kept, updates that key's value in the map.
proof fn lemma_map_of_update(es: Seq<IndexEntry>, j: int, e: IndexEntry)
    requires
        keys_of(es).no_duplicates(),
        0 <= j < es.len(),
        e.key@ == es[j].key@,
    ensures
        map_of(es.update(j, e)) == map_of(es).insert(e.key@, e.words.deep_view()),
    decreases es.len(),
{
    let es2 = es.update(j, e);
    if j == es.len() - 1 {
        assert(es2.drop_last() =~= es.drop_last());
        assert(es2.last() == e);
        assert(map_of(es2) =~= map_of(es).insert(e.key@, e.words.deep_view()));
    } else {
        assert(keys_of(es).drop_last() =~= keys_of(es.drop_last()));
        assert(keys_of(es)[j] == es[j].key@ && keys_of(es)[es.len() - 1] == es.last().key@);
        assert(es2.drop_last() =~= es.drop_last().update(j, e));
        assert(es.drop_last()[j] == es[j]);
        lemma_map_of_update(es.drop_last(), j, e);
        assert(es2.last() == es.last());
        assert(es.last().key@ != e.key@);
        assert(map_of(es2) =~= map_of(es).insert(e.key@, e.words.deep_view()));
    }
}

impl WordIndex {
    /// Well-formed: no key is carried by two entries.
    pub closed spec fn wf(&self) -> bool {
        keys_of(self.entries@).no_duplicates()
    }

    /// The map this index stands for.
    pub closed spec fn view(&self) -> Map<Seq<char>, Seq<Seq<char>>> {
        map_of(self.entries@)
    }

    /// An empty index.
    pub fn new() -> (r: WordIndex)
        ensures
            r.wf(),
            r@ == Map::<Seq<char>, Seq<Seq<char>>>::empty(),
    {
        let r = WordIndex { entries: Vec::new() };
        proof {
            assert(keys_of(r.entries@) =~= Seq::<Seq<char>>::empty());
        }
        r
    }

    /// File `word` under `key`, after any words already there.
    pub fn insert_word(&mut self, key: String, word: String)
        requires
            old(self).wf(),
        ensures
            final(self).wf(),
            final(self)@ == (if old(self)@.contains_key(key@) {
                old(self)@.insert(key@, old(self)@[key@].push(word@))
            } else {
                old(self)@.insert(key@, seq![word@])
            }),
    {
        let ghost es0 = self.entries@;
        let mut i: usize = 0;
        while i < self.entries.len()
            invariant
                0 <= i <= self.entries@.len(),
                es0 == old(self).entries@,
                self.entries@ == es0,
                keys_of(es0).no_duplicates(),
                forall|j: int| 0 <= j < i ==> #[trigger] es0[j].key@ != key@,
            decreases self.entries@.len() - i,
        {
            if self.entries[i].key == key {
                proof {
                    assert(keys_of(es0)[i as int] == key@);
                    lemma_map_of_get(es0, i as int);
                }
                let mut entry = self.entries.remove(i);
                entry.words.push(word);
                proof {
                    assert(entry.words.deep_view() =~= es0[i as int].words.deep_view().push(word@));
                }
                self.entries.insert(i, entry);
                proof {
                    assert(self.entries@ =~= es0.update(i as int, entry));
                    lemma_map_of_update(es0, i as int, entry);
                    assert(keys_of(self.entries@) =~= keys_of(es0));
                }
                return ;
            }
            proof {
                assert(keys_of(es0)[i as int] == es0[i as int].key@);
            }
            i += 1;
        }
        proof {
            lemma_map_of_dom(es0, key@);
            assert(!keys_of(es0).contains(key@)) by {
                if keys_of(es0).contains(key@) {
                    let j = choose|j: int|
                        0 <= j < keys_of(es0).len() && #[trigger] keys_of(es0)[j] == key@;
                    assert(es0[j].key@ == key@);
                }
            }
            assert(!old(self)@.contains_key(key@));
        }
        let mut words: Vec<String> = Vec::new();
        words.push(word);
        let entry = IndexEntry { key, words };
        let ghost e = entry;
        self.entries.push(entry);
        proof {
            assert(e.words.deep_view() =~= seq![e.words@[0]@]);
            assert(self.entries@.drop_last() =~= es0);
            assert(keys_of(self.entries@) =~= keys_of(es0).push(e.key@));
            assert(keys_of(self.entries@).drop_last() =~= keys_of(es0));
        }
    }

    /// The words filed under `key`, if any.
    pub fn get<'a>(&'a self, key: &String) -> (r: Option<&'a Vec<String>>)
        requires
            self.wf(),
        ensures
            match r {
                Some(ws) => self@.contains_key(key@) && ws.deep_view() == self@[key@],
                None => !self@.contains_key(key@),
            },
    {
        let ghost es0 = self.entries@;
        let mut i: usize = 0;
        while i < self.entries.len()
            invariant
                0 <= i <= self.entries@.len(),
                self.entries@ == es0,
                keys_of(es0).no_duplicates(),
                forall|j: int| 0 <= j < i ==> #[trigger] es0[j].key@ != key@,
            decreases self.entries@.len() - i,
        {
            if self.entries[i].key == *key {
                proof {
                    lemma_map_of_get(es0, i as int);
                }
                return Some(&self.entries[i].words);
            }
            proof {
                assert(keys_of(es0)[i as int] == es0[i as int].key@);
            }
            i += 1;
        }
        proof {
            lemma_map_of_dom(es0, key@);
            assert(!keys_of(es0).contains(key@)) by {
                if keys_of(es0).contains(key@) {
                    let j = choose|j: int|
                        0 <= j < keys_of(es0).len() && #[trigger] keys_of(es0)[j] == key@;
                    assert(es0[j].key@ == key@);
                }
            }
        }
        None
    }
}

} // verus!
