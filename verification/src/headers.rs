//! The header fields of an HTTP request: a map from field name to value in
//! which a later field of the same name replaces an earlier one. Each name
//! is held once.
use vstd::prelude::*;

verus! {

/// Header fields, each name once, in the order the names were first added.
#[derive(Debug)]
pub struct Headers {
    entries: Vec<(String, String)>,
}

/// The map that results from inserting `pairs` in order into an empty map.
pub open spec fn pairs_map(pairs: Seq<(Seq<char>, Seq<char>)>) -> Map<Seq<char>, Seq<char>>
    decreases pairs.len(),
{
    if pairs.len() == 0 {
        Map::empty()
    } else {
        pairs_map(pairs.drop_last()).insert(pairs.last().0, pairs.last().1)
    }
}

impl Headers {
    /// The added fields, name and value, in order.
    pub closed spec fn pairs(&self) -> Seq<(Seq<char>, Seq<char>)> {
        self.entries@.map_values(|e: (String, String)| (e.0@, e.1@))
    }
}

/// No two pairs share a name.
pub open spec fn names_distinct(ps: Seq<(Seq<char>, Seq<char>)>) -> bool {
    forall|i: int, j: int| 0 <= i < j < ps.len() ==> (#[trigger] ps[i]).0 != (#[trigger] ps[j]).0
}

impl Headers {
    #[verifier::type_invariant]
    spec fn names_held_once(&self) -> bool {
        names_distinct(self.pairs())
    }
}

impl View for Headers {
    type V = Map<Seq<char>, Seq<char>>;

    open spec fn view(&self) -> Map<Seq<char>, Seq<char>> {
        pairs_map(self.pairs())
    }
}

proof fn lemma_lookup_suffix(ps: Seq<(Seq<char>, Seq<char>)>, i: int, k: Seq<char>)
    requires
        0 <= i <= ps.len(),
        forall|j: int| i <= j < ps.len() ==> (#[trigger] ps[j]).0 != k,
    ensures
        pairs_map(ps).dom().contains(k) == pairs_map(ps.take(i)).dom().contains(k),
        pairs_map(ps).dom().contains(k) ==> pairs_map(ps)[k] == pairs_map(ps.take(i))[k],
    decreases ps.len() - i,
{
    if i < ps.len() {
        lemma_lookup_suffix(ps, i + 1, k);
        assert(ps.take(i + 1).drop_last() =~= ps.take(i));
    } else {
        assert(ps.take(i) =~= ps);
    }
}

proof fn lemma_pairs_map_len(ps: Seq<(Seq<char>, Seq<char>)>)
    requires
        names_distinct(ps),
    ensures
        pairs_map(ps).dom().finite(),
        pairs_map(ps).dom().len() == ps.len(),
    decreases ps.len(),
{
    if ps.len() > 0 {
        let dl = ps.drop_last();
        assert(names_distinct(dl));
        lemma_pairs_map_len(dl);
        assert forall|j: int| 0 <= j < dl.len() implies (#[trigger] dl[j]).0 != ps.last().0 by {
            assert(ps[j] == dl[j]);
        }
        lemma_lookup_suffix(dl, 0, ps.last().0);
        assert(dl.take(0) =~= Seq::<(Seq<char>, Seq<char>)>::empty());
    }
}

proof fn lemma_pairs_map_update(ps: Seq<(Seq<char>, Seq<char>)>, i: int, v: Seq<char>)
    requires
        names_distinct(ps),
        0 <= i < ps.len(),
    ensures
        pairs_map(ps.update(i, (ps[i].0, v))) == pairs_map(ps).insert(ps[i].0, v),
    decreases ps.len(),
{
    let k = ps[i].0;
    let up = ps.update(i, (k, v));
    let dl = ps.drop_last();
    if i == ps.len() - 1 {
        assert(up.drop_last() =~= dl);
        assert(pairs_map(up) =~= pairs_map(ps).insert(k, v));
    } else {
        assert(names_distinct(dl));
        lemma_pairs_map_update(dl, i, v);
        assert(up.drop_last() =~= dl.update(i, (k, v)));
        assert(ps.last().0 != k);
        assert(pairs_map(up) =~= pairs_map(ps).insert(k, v));
    }
}

impl Headers {
    /// No header fields.
    pub fn new() -> (h: Headers)
        ensures
            h@ == Map::<Seq<char>, Seq<char>>::empty(),
    {
        let h = Headers { entries: Vec::new() };
        assert(h.pairs() =~= Seq::<(Seq<char>, Seq<char>)>::empty());
        h
    }

    /// Where field `key` is held, if it is.
    fn position(&self, key: &str) -> (r: Option<usize>)
        ensures
            r matches Some(i) ==> i < self.pairs().len() && self.pairs()[i as int].0 == key@,
            r is None ==> forall|j: int| 0 <= j < self.pairs().len() ==> (#[trigger] self.pairs()[j]).0 != key@,
    {
        let ghost ps = self.pairs();
        let mut i = self.entries.len();
        while i > 0
            invariant
                ps == self.pairs(),
                ps.len() == self.entries.len(),
                i <= self.entries.len(),
                forall|j: int| i <= j < ps.len() ==> (#[trigger] ps[j]).0 != key@,
            decreases i,
        {
            let name: &str = self.entries[i - 1].0.as_str();
            if crate::text::text_eq(name, key) {
                return Some(i - 1);
            }
            i = i - 1;
        }
        None
    }

    /// Sets field `k` to `v`, replacing an earlier value of `k`.
    pub fn insert(&mut self, k: String, v: String)
        ensures
            final(self)@ == old(self)@.insert(k@, v@),
    {
        proof {
            use_type_invariant(&*self);
        }
        let ghost kv = k@;
        let ghost vv = v@;
        let ghost ps = self.pairs();
        let pos = self.position(k.as_str());
        let mut entries: Vec<(String, String)> = Vec::new();
        std::mem::swap(&mut entries, &mut self.entries);
        assert(entries@.map_values(|e: (String, String)| (e.0@, e.1@)) == ps);
        match pos {
            Some(i) => {
                proof {
                    lemma_pairs_map_update(ps, i as int, vv);
                }
                entries.set(i, (k, v));
            },
            None => {
                entries.push((k, v));
            },
        }
        proof {
            let np = entries@.map_values(|e: (String, String)| (e.0@, e.1@));
            match pos {
                Some(i) => {
                    assert(np =~= ps.update(i as int, (kv, vv)));
                },
                None => {
                    assert(np =~= ps.push((kv, vv)));
                },
            }
            assert(names_distinct(np));
        }
        self.entries = entries;
        proof {
            match pos {
                Some(i) => {
                    assert(self.pairs() =~= ps.update(i as int, (kv, vv)));
                },
                None => {
                    assert(self.pairs().drop_last() =~= ps);
                    assert(self.pairs().last() == (kv, vv));
                },
            }
        }
    }

    /// The number of fields.
    pub fn len(&self) -> (n: usize)
        ensures
            n == self@.dom().len(),
    {
        proof {
            use_type_invariant(self);
            lemma_pairs_map_len(self.pairs());
        }
        self.entries.len()
    }

    /// The value of field `key`, if it has one.
    pub fn get(&self, key: &str) -> (r: Option<&String>)
        ensures
            r is Some <==> self@.dom().contains(key@),
            r matches Some(v) ==> v@ == self@[key@],
    {
        let ghost ps = self.pairs();
        let mut i = self.entries.len();
        while i > 0
            invariant
                ps == self.pairs(),
                ps.len() == self.entries.len(),
                i <= self.entries.len(),
                forall|j: int| i <= j < ps.len() ==> (#[trigger] ps[j]).0 != key@,
            decreases i,
        {
            let e = &self.entries[i - 1];
            let name: &str = e.0.as_str();
            if crate::text::text_eq(name, key) {
                proof {
                    lemma_lookup_suffix(ps, i as int, key@);
                    assert(ps.take(i as int).drop_last() =~= ps.take(i - 1));
                }
                return Some(&e.1);
            }
            i = i - 1;
        }
        proof {
            lemma_lookup_suffix(ps, 0, key@);
            assert(ps.take(0) =~= Seq::<(Seq<char>, Seq<char>)>::empty());
        }
        None
    }
}

} // verus!
