//! Small tables and sets with keys that are compared by their contents.

use vstd::prelude::*;

use crate::addr::SocketAddr;

verus! {

/// A key of a table.
pub trait Key: View + Sized {
    /// Whether two keys have the same contents.
    fn same(&self, other: &Self) -> (r: bool)
        ensures
            r == (self@ == other@),
    ;
}

impl View for SocketAddr {
    type V = SocketAddr;

    open spec fn view(&self) -> SocketAddr {
        *self
    }
}

impl Key for SocketAddr {
    fn same(&self, other: &SocketAddr) -> (r: bool) {
        *self == *other
    }
}

/// Whether two byte strings are the same.
pub fn same_bytes(a: &[u8], b: &[u8]) -> (r: bool)
    ensures
        r == (a@ == b@),
{
    if a.len() != b.len() {
        return false;
    }
    let mut i: usize = 0;
    while i < a.len()
        invariant
            i <= a@.len() == b@.len(),
            forall|j: int| 0 <= j < i ==> a@[j] == b@[j],
        decreases a@.len() - i,
    {
        if a[i] != b[i] {
            return false;
        }
        i = i + 1;
    }
    assert(a@ =~= b@);
    true
}

/// Whether `text` starts with `start`.
pub fn starts_with(text: &[u8], start: &[u8]) -> (r: bool)
    ensures
        r == (start@.len() <= text@.len() && text@.take(start@.len() as int) == start@),
{
    if text.len() < start.len() {
        return false;
    }
    let mut i: usize = 0;
    while i < start.len()
        invariant
            i <= start@.len() <= text@.len(),
            forall|j: int| 0 <= j < i ==> text@[j] == start@[j],
        decreases start@.len() - i,
    {
        if text[i] != start[i] {
            assert(text@.take(start@.len() as int)[i as int] != start@[i as int]);
            return false;
        }
        i = i + 1;
    }
    assert(text@.take(start@.len() as int) =~= start@);
    true
}

impl Key for Vec<u8> {
    fn same(&self, other: &Vec<u8>) -> (r: bool) {
        same_bytes(self.as_slice(), other.as_slice())
    }
}

/// A key made of a client's address and a connection ID.
#[derive(Debug)]
pub struct ClientKey {
    pub peer: SocketAddr,
    pub dcid: Vec<u8>,
}

impl View for ClientKey {
    type V = (SocketAddr, Seq<u8>);

    open spec fn view(&self) -> (SocketAddr, Seq<u8>) {
        (self.peer, self.dcid@)
    }
}

impl Key for ClientKey {
    fn same(&self, other: &ClientKey) -> (r: bool) {
        self.peer == other.peer && same_bytes(self.dcid.as_slice(), other.dcid.as_slice())
    }
}

/// A table with at most one value for each key.
#[derive(Debug)]
pub struct Table<K: Key, T: View> {
    entries: Vec<(K, T)>,
}

/// Whether `key` stands at `i`.
spec fn key_at<K: Key, T: View>(entries: Seq<(K, T)>, i: int, key: K::V) -> bool {
    0 <= i < entries.len() && entries[i].0@ == key
}

/// Whether a key is in a table.
spec fn holds<K: Key, T: View>(entries: Seq<(K, T)>, key: K::V) -> bool {
    exists|i: int| #[trigger] key_at(entries, i, key)
}

/// The place of a key in a table.
spec fn place<K: Key, T: View>(entries: Seq<(K, T)>, key: K::V) -> int {
    choose|i: int| #[trigger] key_at(entries, i, key)
}

/// Whether no two entries have the same key.
spec fn distinct<K: Key, T: View>(entries: Seq<(K, T)>) -> bool {
    forall|i: int, j: int|
        0 <= i < entries.len() && 0 <= j < entries.len() && (#[trigger] entries[i]).0@ == (
        #[trigger] entries[j]).0@ ==> i == j
}

/// The contents of the entries.
spec fn contents<K: Key, T: View>(entries: Seq<(K, T)>) -> Map<K::V, T::V> {
    Map::new(
        |key: K::V| holds(entries, key),
        |key: K::V| entries[place(entries, key)].1@,
    )
}

impl<K: Key, T: View> View for Table<K, T> {
    type V = Map<K::V, T::V>;

    closed spec fn view(&self) -> Map<K::V, T::V> {
        contents(self.entries@)
    }
}

proof fn lemma_entry<K: Key, T: View>(entries: Seq<(K, T)>, i: int)
    requires
        distinct(entries),
        0 <= i < entries.len(),
    ensures
        contents(entries).contains_key(entries[i].0@),
        contents(entries)[entries[i].0@] == entries[i].1@,
{
    let key = entries[i].0@;
    assert(key_at(entries, i, key));
    assert(key_at(entries, place(entries, key), key));
}

proof fn lemma_pushed<K: Key, T: View>(entries: Seq<(K, T)>, entry: (K, T))
    requires
        distinct(entries),
        !contents(entries).contains_key(entry.0@),
    ensures
        distinct(entries.push(entry)),
        contents(entries.push(entry)) == contents(entries).insert(entry.0@, entry.1@),
{
    let more = entries.push(entry);
    assert forall|i: int, j: int|
        0 <= i < more.len() && 0 <= j < more.len() && (#[trigger] more[i]).0@ == (
        #[trigger] more[j]).0@ implies i == j by {
        if i < entries.len() {
            assert(key_at(entries, i, entries[i].0@));
        }
        if j < entries.len() {
            assert(key_at(entries, j, entries[j].0@));
        }
    }
    assert forall|key: K::V| contents(more).contains_key(key) == contents(entries).insert(
        entry.0@,
        entry.1@,
    ).contains_key(key) by {
        if holds(more, key) {
            let i = place(more, key);
            if i < entries.len() {
                assert(key_at(entries, i, key));
            }
        }
        if holds(entries, key) {
            assert(key_at(more, place(entries, key), key));
        }
        if key == entry.0@ {
            assert(key_at(more, entries.len() as int, key));
        }
    }
    assert forall|key: K::V| contents(more).contains_key(key) implies contents(more)[key]
        == contents(entries).insert(entry.0@, entry.1@)[key] by {
        let i = place(more, key);
        assert(key_at(more, i, key));
        if i < entries.len() {
            lemma_entry(entries, i);
            assert(key_at(entries, i, key));
        }
    }
    assert(contents(more) =~= contents(entries).insert(entry.0@, entry.1@));
}

proof fn lemma_removed<K: Key, T: View>(entries: Seq<(K, T)>, i: int)
    requires
        distinct(entries),
        0 <= i < entries.len(),
    ensures
        distinct(entries.update(i, entries.last()).drop_last()),
        contents(entries.update(i, entries.last()).drop_last()) == contents(entries).remove(
            entries[i].0@,
        ),
{
    let key = entries[i].0@;
    let less = entries.update(i, entries.last()).drop_last();
    let last = entries.len() - 1;
    assert forall|a: int, b: int|
        0 <= a < less.len() && 0 <= b < less.len() && (#[trigger] less[a]).0@ == (
        #[trigger] less[b]).0@ implies a == b by {
        let x = if a == i {
            last
        } else {
            a
        };
        let y = if b == i {
            last
        } else {
            b
        };
        assert(less[a] == entries[x] && less[b] == entries[y]);
    }
    assert forall|k: K::V| contents(less).contains_key(k) == contents(entries).remove(
        key,
    ).contains_key(k) by {
        if holds(less, k) {
            let a = place(less, k);
            let x = if a == i {
                last
            } else {
                a
            };
            assert(less[a] == entries[x]);
            assert(key_at(entries, x, k));
            assert(x != i);
            assert(k != key);
        }
        if holds(entries, k) && k != key {
            let x = place(entries, k);
            let a = if x == last {
                i
            } else {
                x
            };
            assert(less[a] == entries[x]);
            assert(key_at(less, a, k));
        }
    }
    assert forall|k: K::V| contents(less).contains_key(k) implies contents(less)[k] == contents(
        entries,
    ).remove(key)[k] by {
        let a = place(less, k);
        let x = if a == i {
            last
        } else {
            a
        };
        assert(less[a] == entries[x]);
        lemma_entry(entries, x);
    }
    assert(contents(less) =~= contents(entries).remove(key));
}

impl<K: Key, T: View> Table<K, T> {
    /// Whether there is at most one value for each key.
    pub closed spec fn wf(self) -> bool {
        distinct(self.entries@)
    }

    /// An empty table.
    pub fn new() -> (r: Table<K, T>)
        ensures
            r.wf(),
            r@ == Map::<K::V, T::V>::empty(),
    {
        let r: Table<K, T> = Table { entries: Vec::new() };
        assert(r@ =~= Map::<K::V, T::V>::empty());
        r
    }

    /// Finds the place of a key.
    fn find(&self, key: &K) -> (r: Option<usize>)
        requires
            self.wf(),
        ensures
            match r {
                Some(i) => i < self.entries@.len() && self.entries@[i as int].0@ == key@
                    && self@.contains_key(key@),
                None => !self@.contains_key(key@),
            },
    {
        let mut i: usize = 0;
        while i < self.entries.len()
            invariant
                self.wf(),
                i <= self.entries@.len(),
                forall|j: int| 0 <= j < i ==> (#[trigger] self.entries@[j]).0@ != key@,
            decreases self.entries@.len() - i,
        {
            if self.entries[i].0.same(key) {
                proof {
                    lemma_entry(self.entries@, i as int);
                }
                return Some(i);
            }
            i = i + 1;
        }
        None
    }

    /// The value for a key.
    pub fn get(&self, key: &K) -> (r: Option<&T>)
        requires
            self.wf(),
        ensures
            match r {
                Some(value) => self@.contains_key(key@) && value@ == self@[key@],
                None => !self@.contains_key(key@),
            },
    {
        match self.find(key) {
            Some(i) => {
                proof {
                    lemma_entry(self.entries@, i as int);
                }
                Some(&self.entries[i].1)
            },
            None => None,
        }
    }

    /// Takes the value for a key out.
    pub fn remove(&mut self, key: &K) -> (r: Option<T>)
        requires
            old(self).wf(),
        ensures
            final(self).wf(),
            final(self)@ == old(self)@.remove(key@),
            match r {
                Some(value) => old(self)@.contains_key(key@) && value@ == old(self)@[key@],
                None => !old(self)@.contains_key(key@),
            },
    {
        match self.find(key) {
            Some(i) => {
                proof {
                    lemma_entry(self.entries@, i as int);
                    lemma_removed(self.entries@, i as int);
                }
                let entry = self.entries.swap_remove(i);
                Some(entry.1)
            },
            None => {
                assert(self@ =~= old(self)@.remove(key@));
                None
            },
        }
    }

    /// Sets the value for a key.
    pub fn insert(&mut self, key: K, value: T)
        requires
            old(self).wf(),
        ensures
            final(self).wf(),
            final(self)@ == old(self)@.insert(key@, value@),
    {
        let replaced = self.remove(&key);
        proof {
            lemma_pushed(self.entries@, (key, value));
            assert(old(self)@.remove(key@).insert(key@, value@) =~= old(self)@.insert(
                key@,
                value@,
            ));
        }
        self.entries.push((key, value));
    }

    /// Takes any one entry out.
    pub fn pop(&mut self) -> (r: Option<(K, T)>)
        requires
            old(self).wf(),
        ensures
            final(self).wf(),
            match r {
                Some(entry) => {
                    &&& old(self)@.contains_key(entry.0@)
                    &&& entry.1@ == old(self)@[entry.0@]
                    &&& final(self)@ == old(self)@.remove(entry.0@)
                    &&& final(self).size() < old(self).size()
                },
                None => old(self)@ == Map::<K::V, T::V>::empty() && final(self)@ == old(self)@,
            },
    {
        proof {
            if self.entries@.len() > 0 {
                let last = self.entries@.len() - 1;
                lemma_entry(self.entries@, last);
                lemma_removed(self.entries@, last);
                assert(self.entries@.update(last, self.entries@.last()) =~= self.entries@);
            } else {
                assert(self@ =~= Map::<K::V, T::V>::empty());
            }
        }
        self.entries.pop()
    }

    /// How many entries there are.
    pub fn len(&self) -> (r: usize)
        ensures
            r == self.size(),
    {
        self.entries.len()
    }

    /// How many entries there are.
    pub closed spec fn size(self) -> nat {
        self.entries@.len()
    }

    /// The key at a place.
    pub closed spec fn key(self, i: int) -> K::V {
        self.entries@[i].0@
    }

    /// The entry at a place.
    pub fn entry(&self, i: usize) -> (r: (&K, &T))
        requires
            self.wf(),
            i < self.size(),
        ensures
            r.0@ == self.key(i as int),
            self@.contains_key(r.0@),
            r.1@ == self@[r.0@],
    {
        proof {
            lemma_entry(self.entries@, i as int);
        }
        let entry = &self.entries[i];
        (&entry.0, &entry.1)
    }

    /// The places hold every key, each once.
    pub proof fn lemma_places(self)
        requires
            self.wf(),
        ensures
            forall|i: int|
                0 <= i < self.size() ==> self@.contains_key(#[trigger] self.key(i)),
            forall|i: int, j: int|
                0 <= i < self.size() && 0 <= j < self.size() && (#[trigger] self.key(i)) == (
                #[trigger] self.key(j)) ==> i == j,
            forall|key: K::V| #[trigger]
                self@.contains_key(key) ==> exists|i: int|
                    0 <= i < self.size() && #[trigger] self.key(i) == key,
    {
        assert forall|i: int| 0 <= i < self.size() implies self@.contains_key(
            #[trigger] self.key(i),
        ) by {
            lemma_entry(self.entries@, i);
        }
        assert forall|key: K::V| #[trigger] self@.contains_key(key) implies exists|i: int|
            0 <= i < self.size() && #[trigger] self.key(i) == key by {
            let i = place(self.entries@, key);
            assert(key_at(self.entries@, i, key));
            assert(self.key(i) == key);
        }
    }
}

/// A set of byte strings.
#[derive(Debug)]
pub struct ByteSet {
    members: Vec<Vec<u8>>,
}

/// Whether `member` stands at `i`.
spec fn member_at(members: Seq<Vec<u8>>, i: int, member: Seq<u8>) -> bool {
    0 <= i < members.len() && members[i]@ == member
}

/// Whether `member` is among the members.
spec fn is_member(members: Seq<Vec<u8>>, member: Seq<u8>) -> bool {
    exists|i: int| #[trigger] member_at(members, i, member)
}

impl View for ByteSet {
    type V = Set<Seq<u8>>;

    closed spec fn view(&self) -> Set<Seq<u8>> {
        Set::new(|member: Seq<u8>| is_member(self.members@, member))
    }
}

impl ByteSet {
    /// An empty set.
    pub fn new() -> (r: ByteSet)
        ensures
            r@ == Set::<Seq<u8>>::empty(),
    {
        let r = ByteSet { members: Vec::new() };
        assert(r@ =~= Set::<Seq<u8>>::empty());
        r
    }

    /// Whether a byte string is in the set.
    pub fn contains(&self, member: &[u8]) -> (r: bool)
        ensures
            r == self@.contains(member@),
    {
        let mut i: usize = 0;
        while i < self.members.len()
            invariant
                i <= self.members@.len(),
                forall|j: int| 0 <= j < i ==> (#[trigger] self.members@[j])@ != member@,
            decreases self.members@.len() - i,
        {
            if same_bytes(self.members[i].as_slice(), member) {
                assert(member_at(self.members@, i as int, member@));
                return true;
            }
            i = i + 1;
        }
        false
    }

    /// Adds a byte string. Returns whether it was not yet there.
    pub fn insert(&mut self, member: Vec<u8>) -> (r: bool)
        ensures
            final(self)@ == old(self)@.insert(member@),
            r == !old(self)@.contains(member@),
    {
        if self.contains(member.as_slice()) {
            assert(self@ =~= old(self)@.insert(member@));
            return false;
        }
        let ghost before = self.members@;
        self.members.push(member);
        proof {
            assert forall|m: Seq<u8>| self@.contains(m) == old(self)@.insert(
                member@,
            ).contains(m) by {
                if is_member(self.members@, m) {
                    let i = choose|i: int| #[trigger] member_at(self.members@, i, m);
                    if i < before.len() {
                        assert(member_at(before, i, m));
                    }
                }
                if is_member(before, m) {
                    let i = choose|i: int| #[trigger] member_at(before, i, m);
                    assert(member_at(self.members@, i, m));
                }
                if m == member@ {
                    assert(member_at(self.members@, before.len() as int, m));
                }
            }
            assert(self@ =~= old(self)@.insert(member@));
        }
        true
    }

    /// How many byte strings there are.
    pub closed spec fn size(self) -> nat {
        self.members@.len()
    }

    /// The byte string at a place.
    pub closed spec fn member(self, i: int) -> Seq<u8> {
        self.members@[i]@
    }

    /// How many byte strings there are.
    pub fn len(&self) -> (r: usize)
        ensures
            r == self.size(),
    {
        self.members.len()
    }

    /// The byte string at a place.
    pub fn at(&self, i: usize) -> (r: &Vec<u8>)
        requires
            i < self.size(),
        ensures
            r@ == self.member(i as int),
            self@.contains(r@),
    {
        assert(member_at(self.members@, i as int, self.members@[i as int]@));
        &self.members[i]
    }

    /// The places hold every byte string of the set.
    pub proof fn lemma_places(self)
        ensures
            forall|i: int| 0 <= i < self.size() ==> self@.contains(#[trigger] self.member(i)),
            forall|m: Seq<u8>| #[trigger]
                self@.contains(m) ==> exists|i: int|
                    0 <= i < self.size() && #[trigger] self.member(i) == m,
    {
        assert forall|i: int| 0 <= i < self.size() implies self@.contains(
            #[trigger] self.member(i),
        ) by {
            assert(member_at(self.members@, i, self.members@[i]@));
        }
        assert forall|m: Seq<u8>| #[trigger] self@.contains(m) implies exists|i: int|
            0 <= i < self.size() && #[trigger] self.member(i) == m by {
            let i = choose|i: int| #[trigger] member_at(self.members@, i, m);
            assert(self.member(i) == m);
        }
    }
}

} // verus!
