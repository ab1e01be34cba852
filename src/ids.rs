use vstd::prelude::*;

verus! {

/// Strict lexicographic order on identities, character by character (the
/// order of `String`'s `Ord`).
pub open spec fn id_lt(a: Seq<char>, b: Seq<char>) -> bool
    decreases a.len(),
{
    if a.len() == 0 {
        b.len() > 0
    } else if b.len() == 0 {
        false
    } else if a[0] != b[0] {
        (a[0] as int) < (b[0] as int)
    } else {
        id_lt(a.drop_first(), b.drop_first())
    }
}

/// Identities strictly ascending.
pub open spec fn sorted_ids(s: Seq<Seq<char>>) -> bool {
    forall|i: int, j: int| 0 <= i < j < s.len() ==> #[trigger] id_lt(s[i], s[j])
}

pub proof fn lemma_id_lt_irreflexive(a: Seq<char>)
    ensures
        !id_lt(a, a),
    decreases a.len(),
{
    if a.len() > 0 {
        lemma_id_lt_irreflexive(a.drop_first());
    }
}

pub proof fn lemma_id_lt_trichotomy(a: Seq<char>, b: Seq<char>)
    ensures
        a != b ==> (id_lt(a, b) || id_lt(b, a)),
        !(id_lt(a, b) && id_lt(b, a)),
    decreases a.len(),
{
    if a.len() > 0 && b.len() > 0 && a[0] == b[0] {
        lemma_id_lt_trichotomy(a.drop_first(), b.drop_first());
        if a != b {
            assert(a.drop_first() != b.drop_first()) by {
                if a.drop_first() == b.drop_first() {
                    assert(a =~= seq![a[0]] + a.drop_first());
                    assert(b =~= seq![b[0]] + b.drop_first());
                }
            }
        }
    } else if a.len() == 0 && b.len() == 0 {
        assert(a =~= b);
    } else if a.len() > 0 && b.len() > 0 {
        assert((a[0] as int) != (b[0] as int));
    }
}

pub proof fn lemma_id_lt_transitive(a: Seq<char>, b: Seq<char>, c: Seq<char>)
    requires
        id_lt(a, b),
        id_lt(b, c),
    ensures
        id_lt(a, c),
    decreases a.len(),
{
    if a.len() > 0 && b.len() > 0 && c.len() > 0 && a[0] == b[0] && b[0] == c[0] {
        lemma_id_lt_transitive(a.drop_first(), b.drop_first(), c.drop_first());
    }
}

/// Comparing past an equal prefix.
proof fn lemma_id_lt_skip(a: Seq<char>, b: Seq<char>, i: int)
    requires
        0 <= i <= a.len(),
        i <= b.len(),
        a.subrange(0, i) == b.subrange(0, i),
    ensures
        id_lt(a, b) == id_lt(a.subrange(i, a.len() as int), b.subrange(i, b.len() as int)),
    decreases i,
{
    if i > 0 {
        assert(a[0] == a.subrange(0, i)[0]);
        assert(b[0] == b.subrange(0, i)[0]);
        assert(a.drop_first().subrange(0, i - 1) =~= a.subrange(0, i).drop_first());
        assert(b.drop_first().subrange(0, i - 1) =~= b.subrange(0, i).drop_first());
        lemma_id_lt_skip(a.drop_first(), b.drop_first(), i - 1);
        assert(a.drop_first().subrange(i - 1, a.len() - 1) =~= a.subrange(i, a.len() as int));
        assert(b.drop_first().subrange(i - 1, b.len() - 1) =~= b.subrange(i, b.len() as int));
    } else {
        assert(a.subrange(0, a.len() as int) =~= a);
        assert(b.subrange(0, b.len() as int) =~= b);
    }
}

/// Orders two identities: `Less` when `a` comes first, `Equal` when they are
/// the same text.
pub fn compare_ids(a: &str, b: &str) -> (r: core::cmp::Ordering)
    ensures
        (r == core::cmp::Ordering::Less) == id_lt(a@, b@),
        (r == core::cmp::Ordering::Equal) == (a@ == b@),
        (r == core::cmp::Ordering::Greater) == id_lt(b@, a@),
{
    let la = a.unicode_len();
    let lb = b.unicode_len();
    let mut i: usize = 0;
    while i < la && i < lb
        invariant
            la == a@.len(),
            lb == b@.len(),
            i <= la,
            i <= lb,
            a@.subrange(0, i as int) == b@.subrange(0, i as int),
        decreases la - i,
    {
        let ca = a.get_char(i);
        let cb = b.get_char(i);
        if ca != cb {
            proof {
                lemma_id_lt_skip(a@, b@, i as int);
                lemma_id_lt_skip(b@, a@, i as int);
                lemma_id_lt_trichotomy(a@, b@);
                assert(a@[i as int] != b@[i as int]);
            }
            if (ca as u32) < (cb as u32) {
                return core::cmp::Ordering::Less;
            } else {
                return core::cmp::Ordering::Greater;
            }
        }
        proof {
            assert(a@.subrange(0, i + 1) =~= a@.subrange(0, i as int).push(ca));
            assert(b@.subrange(0, i + 1) =~= b@.subrange(0, i as int).push(cb));
        }
        i += 1;
    }
    proof {
        lemma_id_lt_skip(a@, b@, i as int);
        lemma_id_lt_skip(b@, a@, i as int);
        lemma_id_lt_trichotomy(a@, b@);
        if la == lb {
            assert(a@ =~= a@.subrange(0, i as int));
            assert(b@ =~= b@.subrange(0, i as int));
        } else {
            assert(a@.len() != b@.len());
        }
    }
    if la == lb {
        core::cmp::Ordering::Equal
    } else if la < lb {
        core::cmp::Ordering::Less
    } else {
        core::cmp::Ordering::Greater
    }
}

/// Same identity text.
pub fn same_id(a: &str, b: &str) -> (r: bool)
    ensures
        r == (a@ == b@),
{
    match compare_ids(a, b) {
        core::cmp::Ordering::Equal => true,
        _ => false,
    }
}


/// A map keyed by identity, kept in ascending identity order.
pub struct IdMap<V> {
    keys: Vec<String>,
    vals: Vec<V>,
}

impl<V> View for IdMap<V> {
    type V = Map<Seq<char>, V>;

    open spec fn view(&self) -> Map<Seq<char>, V> {
        Map::new(
            |k: Seq<char>| self.key_seq().contains(k),
            |k: Seq<char>| self.val_seq()[self.key_seq().index_of(k)],
        )
    }
}

impl<V> IdMap<V> {
    /// The keys, ascending.
    pub closed spec fn key_seq(&self) -> Seq<Seq<char>> {
        self.keys@.map_values(|s: String| s@)
    }

    /// The values, in the order of their keys.
    pub closed spec fn val_seq(&self) -> Seq<V> {
        self.vals@
    }

    pub open spec fn wf(&self) -> bool {
        &&& sorted_ids(self.key_seq())
        &&& self.key_seq().len() == self.val_seq().len()
    }

    /// The value at a position is the one its key maps to.
    pub proof fn lemma_view_at(&self, i: int)
        requires
            self.wf(),
            0 <= i < self.key_seq().len(),
        ensures
            self@.contains_key(self.key_seq()[i]),
            self@[self.key_seq()[i]] == self.val_seq()[i],
    {
        let k = self.key_seq()[i];
        assert(self.key_seq().contains(k));
        let j = self.key_seq().index_of(k);
        assert(0 <= j < self.key_seq().len() && self.key_seq()[j] == k);
        if j < i {
            assert(id_lt(self.key_seq()[j], self.key_seq()[i]));
            lemma_id_lt_irreflexive(k);
        } else if j > i {
            assert(id_lt(self.key_seq()[i], self.key_seq()[j]));
            lemma_id_lt_irreflexive(k);
        }
    }

    /// The keys are exactly the domain.
    pub proof fn lemma_dom(&self)
        requires
            self.wf(),
        ensures
            self@.dom() == self.key_seq().to_set(),
            self.key_seq().no_duplicates(),
    {
        assert(self@.dom() =~= self.key_seq().to_set());
        assert forall|a: int, b: int| 0 <= a < self.key_seq().len() && 0 <= b < self.key_seq().len() && a != b
            implies self.key_seq()[a] != self.key_seq()[b] by {
            if a < b {
                assert(id_lt(self.key_seq()[a], self.key_seq()[b]));
            } else {
                assert(id_lt(self.key_seq()[b], self.key_seq()[a]));
            }
            lemma_id_lt_irreflexive(self.key_seq()[a]);
        }
    }

    pub fn new() -> (r: IdMap<V>)
        ensures
            r.wf(),
            r@ == Map::<Seq<char>, V>::empty(),
            r.key_seq().len() == 0,
    {
        let r = IdMap { keys: Vec::new(), vals: Vec::new() };
        proof {
            assert(r.key_seq() =~= Seq::<Seq<char>>::empty());
            assert(r@ =~= Map::<Seq<char>, V>::empty());
        }
        r
    }

    pub fn len(&self) -> (r: usize)
        requires
            self.wf(),
        ensures
            r == self.key_seq().len(),
    {
        self.keys.len()
    }

    pub fn key_at(&self, i: usize) -> (r: &str)
        requires
            self.wf(),
            i < self.key_seq().len(),
        ensures
            r@ == self.key_seq()[i as int],
    {
        self.keys[i].as_str()
    }

    pub fn value_at(&self, i: usize) -> (r: &V)
        requires
            self.wf(),
            i < self.key_seq().len(),
        ensures
            *r == self.val_seq()[i as int],
    {
        &self.vals[i]
    }

    /// Position of a key, if present.
    pub fn find(&self, k: &str) -> (r: Option<usize>)
        requires
            self.wf(),
        ensures
            r is None <==> !self@.contains_key(k@),
            r matches Some(i) ==> i < self.key_seq().len() && self.key_seq()[i as int] == k@,
    {
        let mut i: usize = 0;
        while i < self.keys.len()
            invariant
                self.wf(),
                i <= self.keys@.len(),
                forall|j: int| 0 <= j < i ==> self.key_seq()[j] != k@,
            decreases self.keys.len() - i,
        {
            if same_id(self.keys[i].as_str(), k) {
                proof {
                    assert(self.key_seq()[i as int] == k@);
                    assert(self.key_seq().contains(k@));
                }
                return Some(i);
            }
            i += 1;
        }
        None
    }

    pub fn contains_key(&self, k: &str) -> (r: bool)
        requires
            self.wf(),
        ensures
            r == self@.contains_key(k@),
    {
        self.find(k).is_some()
    }

    /// The value of a key, if present.
    pub fn get(&self, k: &str) -> (r: Option<&V>)
        requires
            self.wf(),
        ensures
            r is None <==> !self@.contains_key(k@),
            r matches Some(v) ==> *v == self@[k@],
    {
        match self.find(k) {
            None => None,
            Some(i) => {
                proof {
                    self.lemma_view_at(i as int);
                }
                Some(&self.vals[i])
            },
        }
    }

    /// Takes a key out, handing back its value.
    pub fn remove(&mut self, k: &str) -> (r: Option<V>)
        requires
            old(self).wf(),
        ensures
            final(self).wf(),
            final(self)@ == old(self)@.remove(k@),
            r is None <==> !old(self)@.contains_key(k@),
            r matches Some(v) ==> v == old(self)@[k@],
    {
        match self.find(k) {
            None => {
                proof {
                    assert(self@ =~= old(self)@.remove(k@));
                }
                None
            },
            Some(i) => {
                let ghost ks = self.key_seq();
                proof {
                    self.lemma_view_at(i as int);
                    self.lemma_dom();
                }
                self.keys.remove(i);
                let v = self.vals.remove(i);
                proof {
                    let nks = self.key_seq();
                    assert(nks =~= ks.remove(i as int));
                    assert forall|a: int, b: int| 0 <= a < b < nks.len() implies #[trigger] id_lt(nks[a], nks[b]) by {
                        if a < i && b >= i {
                            assert(nks[b] == ks[b + 1]);
                        } else if a >= i {
                            assert(nks[a] == ks[a + 1] && nks[b] == ks[b + 1]);
                        }
                    }
                    let target = old(self)@.remove(k@);
                    assert forall|key: Seq<char>| self@.contains_key(key) <==> target.contains_key(key) by {
                        if self@.contains_key(key) {
                            let j = choose|j: int| 0 <= j < nks.len() && nks[j] == key;
                            if j < i {
                                assert(ks[j] == key);
                            } else {
                                assert(ks[j + 1] == key);
                            }
                            assert(ks.contains(key));
                        }
                        if target.contains_key(key) {
                            let j = choose|j: int| 0 <= j < ks.len() && ks[j] == key;
                            if j < i {
                                assert(nks[j] == key);
                            } else {
                                assert(nks[j - 1] == key);
                            }
                            assert(nks.contains(key));
                        }
                    }
                    assert forall|key: Seq<char>| self@.contains_key(key) implies self@[key] == target[key] by {
                        let j = choose|j: int| 0 <= j < nks.len() && nks[j] == key;
                        self.lemma_view_at(j);
                        if j < i {
                            assert(ks[j] == key);
                            old(self).lemma_view_at(j);
                        } else {
                            assert(ks[j + 1] == key);
                            old(self).lemma_view_at(j + 1);
                        }
                    }
                    assert(self@ =~= target);
                }
                Some(v)
            },
        }
    }

    /// Takes out every key of another map.
    pub fn remove_keys_of<W>(&mut self, other: &IdMap<W>)
        requires
            old(self).wf(),
            other.wf(),
        ensures
            final(self).wf(),
            final(self)@ == old(self)@.remove_keys(other@.dom()),
    {
        let mut i: usize = 0;
        while i < other.len()
            invariant
                self.wf(),
                other.wf(),
                i <= other.key_seq().len(),
                self@ == old(self)@.remove_keys(other.key_seq().subrange(0, i as int).to_set()),
            decreases other.key_seq().len() - i,
        {
            let k = other.key_at(i);
            let _ = self.remove(k);
            proof {
                let before = other.key_seq().subrange(0, i as int).to_set();
                let pre = other.key_seq().subrange(0, i as int);
                let post = other.key_seq().subrange(0, i + 1);
                assert(post =~= pre.push(k@));
                assert forall|x: Seq<char>| post.contains(x) <==> pre.contains(x) || x == k@ by {
                    if post.contains(x) && x != k@ {
                        let j = choose|j: int| 0 <= j < post.len() && post[j] == x;
                        assert(pre[j] == x);
                    }
                    if pre.contains(x) {
                        let j = choose|j: int| 0 <= j < pre.len() && pre[j] == x;
                        assert(post[j] == x);
                    }
                    if x == k@ {
                        assert(post[i as int] == x);
                    }
                }
                assert(post.to_set() =~= before.insert(k@));
            }
            i += 1;
            proof {
                assert(self@ =~= old(self)@.remove_keys(other.key_seq().subrange(0, i as int).to_set()));
            }
        }
        proof {
            other.lemma_dom();
            assert(other.key_seq().subrange(0, i as int) =~= other.key_seq());
        }
    }

    /// Appends a key that comes after every key present.
    pub fn push_last(&mut self, k: String, v: V)
        requires
            old(self).wf(),
            old(self).key_seq().len() > 0 ==> id_lt(old(self).key_seq().last(), k@),
        ensures
            final(self).wf(),
            final(self).key_seq() == old(self).key_seq().push(k@),
            final(self).val_seq() == old(self).val_seq().push(v),
    {
        let ghost km = k@;
        let ghost ks = self.key_seq();
        self.keys.push(k);
        self.vals.push(v);
        proof {
            let nks = self.key_seq();
            assert(nks =~= ks.push(km));
            assert forall|a: int, b: int| 0 <= a < b < nks.len() implies #[trigger] id_lt(nks[a], nks[b]) by {
                if b == ks.len() && a < ks.len() - 1 {
                    assert(id_lt(ks[a], ks[ks.len() - 1]));
                    lemma_id_lt_transitive(ks[a], ks[ks.len() - 1], km);
                }
            }
        }
    }

    /// Sets the value of a key, adding the key if it is new.
    pub fn insert(&mut self, k: String, v: V)
        requires
            old(self).wf(),
        ensures
            final(self).wf(),
            final(self)@ == old(self)@.insert(k@, v),
    {
        let ghost ks = self.key_seq();
        let ghost vs = self.val_seq();
        let ghost km = k@;
        let mut i: usize = 0;
        while i < self.keys.len()
            invariant
                self.wf(),
                self.key_seq() == ks,
                self.val_seq() == vs,
                k@ == km,
                i <= ks.len(),
                forall|j: int| 0 <= j < i ==> #[trigger] id_lt(ks[j], km),
            ensures
                self.key_seq() == ks,
                self.val_seq() == vs,
                i <= ks.len(),
                forall|j: int| 0 <= j < i ==> #[trigger] id_lt(ks[j], km),
                i < ks.len() ==> !id_lt(ks[i as int], km),
            decreases self.keys.len() - i,
        {
            match compare_ids(self.keys[i].as_str(), k.as_str()) {
                core::cmp::Ordering::Less => {
                    i += 1;
                },
                _ => {
                    break;
                },
            }
        }
        proof {
            self.lemma_dom();
        }
        if i < self.keys.len() && same_id(self.keys[i].as_str(), k.as_str()) {
            self.vals.set(i, v);
            proof {
                assert(self.key_seq() == ks);
                assert forall|key: Seq<char>| #![auto] self@.contains_key(key) == old(self)@.insert(km, v).contains_key(key)
                    && (self@.contains_key(key) ==> self@[key] == old(self)@.insert(km, v)[key]) by {
                    if self@.contains_key(key) {
                        let j = ks.index_of(key);
                        self.lemma_view_at(j);
                        old(self).lemma_view_at(j);
                    }
                }
                assert(self@ =~= old(self)@.insert(km, v));
            }
            return;
        }
        proof {
            if i < ks.len() {
                lemma_id_lt_trichotomy(ks[i as int], km);
            }
        }
        self.keys.insert(i, k);
        self.vals.insert(i, v);
        proof {
            let nks = self.key_seq();
            assert(nks =~= ks.insert(i as int, km));
            assert(self.val_seq() =~= vs.insert(i as int, v));
            assert forall|a: int, b: int| 0 <= a < b < nks.len() implies #[trigger] id_lt(nks[a], nks[b]) by {
                if b < i {
                } else if b == i {
                } else if a < i {
                    assert(nks[b] == ks[b - 1]);
                    if b - 1 > i {
                        assert(id_lt(ks[i as int], ks[b - 1]));
                        lemma_id_lt_transitive(ks[a], km, ks[i as int]);
                        lemma_id_lt_transitive(ks[a], ks[i as int], ks[b - 1]);
                    } else {
                        lemma_id_lt_transitive(ks[a], km, ks[i as int]);
                    }
                } else if a == i {
                    assert(nks[b] == ks[b - 1]);
                    if b - 1 > i {
                        assert(id_lt(ks[i as int], ks[b - 1]));
                        lemma_id_lt_transitive(km, ks[i as int], ks[b - 1]);
                    }
                } else {
                    assert(nks[a] == ks[a - 1] && nks[b] == ks[b - 1]);
                }
            }
            assert(!ks.contains(km)) by {
                if ks.contains(km) {
                    let j = choose|j: int| 0 <= j < ks.len() && ks[j] == km;
                    if j < i {
                        lemma_id_lt_irreflexive(km);
                    } else if j > i {
                        assert(id_lt(ks[i as int], ks[j]));
                        lemma_id_lt_trichotomy(ks[i as int], km);
                    }
                }
            }
            let target = old(self)@.insert(km, v);
            assert forall|key: Seq<char>| self@.contains_key(key) <==> target.contains_key(key) by {
                if self@.contains_key(key) && key != km {
                    let j = choose|j: int| 0 <= j < nks.len() && nks[j] == key;
                    if j < i {
                        assert(ks[j] == key);
                    } else {
                        assert(ks[j - 1] == key);
                    }
                    assert(ks.contains(key));
                }
                if old(self)@.contains_key(key) {
                    let j = choose|j: int| 0 <= j < ks.len() && ks[j] == key;
                    if j < i {
                        assert(nks[j] == key);
                    } else {
                        assert(nks[j + 1] == key);
                    }
                    assert(nks.contains(key));
                }
                if key == km {
                    assert(nks[i as int] == km);
                    assert(nks.contains(km));
                }
            }
            assert forall|key: Seq<char>| self@.contains_key(key) implies self@[key] == target[key] by {
                if key == km {
                    assert(nks[i as int] == km);
                    self.lemma_view_at(i as int);
                } else {
                    let j = choose|j: int| 0 <= j < nks.len() && nks[j] == key;
                    self.lemma_view_at(j);
                    if j < i {
                        assert(ks[j] == key);
                        old(self).lemma_view_at(j);
                    } else {
                        assert(ks[j - 1] == key);
                        old(self).lemma_view_at(j - 1);
                    }
                }
            }
            assert(self@ =~= old(self)@.insert(km, v));
        }
    }
}


/// A set of identities, kept in ascending order.
pub struct IdSet {
    map: IdMap<()>,
}

impl View for IdSet {
    type V = Set<Seq<char>>;

    open spec fn view(&self) -> Set<Seq<char>> {
        self.ids().to_set()
    }
}

impl IdSet {
    /// The identities, ascending.
    pub closed spec fn ids(&self) -> Seq<Seq<char>> {
        self.map.key_seq()
    }

    pub closed spec fn wf(&self) -> bool {
        self.map.wf()
    }

    /// The identities, as the domain of a map.
    pub fn as_map(&self) -> (r: &IdMap<()>)
        requires
            self.wf(),
        ensures
            r.wf(),
            r@.dom() == self@,
            r.key_seq() == self.ids(),
    {
        proof {
            self.map.lemma_dom();
        }
        &self.map
    }

    pub proof fn lemma_sorted(&self)
        requires
            self.wf(),
        ensures
            sorted_ids(self.ids()),
            self.ids().no_duplicates(),
    {
        self.map.lemma_dom();
    }

    pub fn new() -> (r: IdSet)
        ensures
            r.wf(),
            r@ == Set::<Seq<char>>::empty(),
    {
        let r = IdSet { map: IdMap::new() };
        proof {
            assert(r@ =~= Set::<Seq<char>>::empty());
        }
        r
    }

    pub fn len(&self) -> (r: usize)
        requires
            self.wf(),
        ensures
            r == self.ids().len(),
    {
        self.map.len()
    }

    pub fn id_at(&self, i: usize) -> (r: &str)
        requires
            self.wf(),
            i < self.ids().len(),
        ensures
            r@ == self.ids()[i as int],
    {
        self.map.key_at(i)
    }

    pub fn contains(&self, k: &str) -> (r: bool)
        requires
            self.wf(),
        ensures
            r == self@.contains(k@),
    {
        proof {
            self.map.lemma_dom();
        }
        self.map.contains_key(k)
    }

    /// Adds an identity; one already present leaves the set unchanged.
    pub fn insert(&mut self, k: String)
        requires
            old(self).wf(),
        ensures
            final(self).wf(),
            final(self)@ == old(self)@.insert(k@),
    {
        let ghost km = k@;
        self.map.insert(k, ());
        proof {
            self.map.lemma_dom();
            old(self).map.lemma_dom();
            assert(self.map@.dom() =~= old(self).map@.dom().insert(km));
        }
    }
}

} // verus!
