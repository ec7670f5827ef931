use vstd::prelude::*;

verus! {

/// An external key of a user or an item: an integer or a string.
#[derive(Debug)]
pub enum Key {
    Int(i64),
    Str(String),
}

/// The mathematical value of a key.
pub enum KeyModel {
    Int(int),
    Str(Seq<char>),
}

impl View for Key {
    type V = KeyModel;

    open spec fn view(&self) -> KeyModel {
        match self {
            Key::Int(i) => KeyModel::Int(*i as int),
            Key::Str(s) => KeyModel::Str(s@),
        }
    }
}

impl Key {
    /// Whether two keys stand for the same external value.
    pub fn same(&self, other: &Key) -> (r: bool)
        ensures
            r == (self@ == other@),
    {
        match (self, other) {
            (Key::Int(a), Key::Int(b)) => *a == *b,
            (Key::Str(a), Key::Str(b)) => a.eq(b),
            _ => false,
        }
    }

    pub fn copy(&self) -> (r: Key)
        ensures
            r@ == self@,
    {
        match self {
            Key::Int(i) => Key::Int(*i),
            Key::Str(s) => Key::Str(s.clone()),
        }
    }
}

/// The largest number of keys a registry hands ids out to.
pub const MAX_IDS: u32 = 0x7fff_ffff;

/// A two-way mapping between external keys and dense ids `0, 1, 2, ...`,
/// assigned in order of first sight and never reused.
pub struct Identifier {
    keys: Vec<Key>,
}

pub open spec fn distinct_keys(s: Seq<KeyModel>) -> bool {
    forall|a: int, b: int| 0 <= a < s.len() && 0 <= b < s.len() && a != b ==> s[a] != s[b]
}

/// The registry `s` after `k` was offered to it.
pub open spec fn identified(s: Seq<KeyModel>, k: KeyModel) -> Seq<KeyModel> {
    if s.contains(k) || s.len() >= MAX_IDS {
        s
    } else {
        s.push(k)
    }
}

/// The registry `s` after the keys `ks` were offered to it in order: each
/// unknown key gets the next id, in order of first appearance.
pub open spec fn identified_all(s: Seq<KeyModel>, ks: Seq<KeyModel>) -> Seq<KeyModel>
    decreases ks.len(),
{
    if ks.len() == 0 {
        s
    } else {
        identified(identified_all(s, ks.drop_last()), ks.last())
    }
}

/// The position of `k` in `s`.
pub open spec fn index_in(s: Seq<KeyModel>, k: KeyModel) -> int {
    choose|j: int| 0 <= j < s.len() && s[j] == k
}

/// Distinct keys hold distinct ids, and offering any key later keeps
/// every id already given.
pub proof fn lemma_identifier_stability(s: Seq<KeyModel>, k1: KeyModel, k2: KeyModel, k: KeyModel)
    requires
        distinct_keys(s),
        s.contains(k1),
        s.contains(k2),
        k1 != k2,
    ensures
        index_in(s, k1) != index_in(s, k2),
        distinct_keys(identified(s, k)),
        identified(s, k).contains(k1),
        index_in(identified(s, k), k1) == index_in(s, k1),
{
    let i1 = index_in(s, k1);
    let t = identified(s, k);
    assert(t[i1] == k1);
    let j1 = index_in(t, k1);
    assert(t.contains(k1));
    if t != s {
        assert forall|a: int, b: int| 0 <= a < t.len() && 0 <= b < t.len() && a != b implies t[a] != t[b] by {
            if a == s.len() {
                assert(s.contains(s[b]));
            } else if b == s.len() {
                assert(s.contains(s[a]));
            }
        }
    }
    assert(j1 == i1);
}

impl View for Identifier {
    type V = Seq<KeyModel>;

    closed spec fn view(&self) -> Seq<KeyModel> {
        self.keys@.map_values(|k: Key| k@)
    }
}

impl Identifier {
    /// Keys are distinct, and every id fits the id range.
    pub open spec fn wf(&self) -> bool {
        distinct_keys(self@) && self@.len() <= MAX_IDS
    }

    pub fn new() -> (r: Identifier)
        ensures
            r.wf(),
            r@ == Seq::<KeyModel>::empty(),
    {
        let r = Identifier { keys: Vec::new() };
        assert(r@ =~= Seq::<KeyModel>::empty());
        r
    }

    pub fn len(&self) -> (r: usize)
        ensures
            r == self@.len(),
    {
        self.keys.len()
    }

    /// The id of `key`, if it has one; never assigns.
    pub fn get_id(&self, key: &Key) -> (r: Option<u32>)
        requires
            self.wf(),
        ensures
            match r {
                Some(i) => i < self@.len() && self@[i as int] == key@,
                None => !self@.contains(key@),
            },
    {
        let mut i: usize = 0;
        while i < self.keys.len()
            invariant
                self.wf(),
                i <= self.keys@.len(),
                self@.len() == self.keys@.len(),
                forall|j: int| 0 <= j < i ==> self@[j] != key@,
            decreases self.keys@.len() - i,
        {
            if self.keys[i].same(key) {
                return Some(i as u32);
            }
            i = i + 1;
        }
        proof {
            if self@.contains(key@) {
                let j = choose|j: int| 0 <= j < self@.len() && self@[j] == key@;
                assert(self@[j] != key@);
            }
        }
        None
    }

    /// The id of `key`, assigning the next free id when the key is new.
    /// Fails only when every id is taken.
    pub fn identify(&mut self, key: Key) -> (r: Option<u32>)
        requires
            old(self).wf(),
        ensures
            final(self).wf(),
            old(self)@.contains(key@) ==> final(self)@ == old(self)@ && match r {
                Some(i) => i < old(self)@.len() && old(self)@[i as int] == key@,
                None => false,
            },
            !old(self)@.contains(key@) && old(self)@.len() < MAX_IDS ==> r == Some(
                old(self)@.len() as u32,
            ) && final(self)@ == old(self)@.push(key@),
            !old(self)@.contains(key@) && old(self)@.len() >= MAX_IDS ==> r.is_none()
                && final(self)@ == old(self)@,
    {
        match self.get_id(&key) {
            Some(i) => Some(i),
            None => {
                let n = self.keys.len();
                if n >= MAX_IDS as usize {
                    None
                } else {
                    let ghost before = self@;
                    self.keys.push(key);
                    assert(self@ =~= before.push(key@));
                    assert(self@[n as int] == key@);
                    Some(n as u32)
                }
            },
        }
    }

    /// All keys, in order of their ids.
    pub fn keys(&self) -> (r: Vec<Key>)
        ensures
            r@.map_values(|k: Key| k@) == self@,
    {
        let mut out: Vec<Key> = Vec::new();
        let mut j: usize = 0;
        while j < self.keys.len()
            invariant
                j <= self.keys@.len(),
                out@.map_values(|k: Key| k@) == self@.subrange(0, j as int),
            decreases self.keys@.len() - j,
        {
            let ghost pre = out@;
            let k = self.keys[j].copy();
            out.push(k);
            assert(k@ == self@[j as int]);
            assert(out@.map_values(|k: Key| k@) =~= pre.map_values(|k: Key| k@).push(k@));
            assert(out@.map_values(|k: Key| k@) =~= self@.subrange(0, j as int + 1));
            j = j + 1;
        }
        assert(self@.subrange(0, j as int) =~= self@);
        out
    }

    /// A registry holding `keys` in order; `None` when two keys are equal
    /// or there are too many.
    pub fn from_keys(keys: Vec<Key>) -> (r: Option<Identifier>)
        ensures
            match r {
                Some(reg) => reg.wf() && reg@ == keys@.map_values(|k: Key| k@),
                None => !(distinct_keys(keys@.map_values(|k: Key| k@)) && keys@.len() <= MAX_IDS),
            },
    {
        let ghost ks = keys@.map_values(|k: Key| k@);
        let mut reg = Identifier::new();
        let mut j: usize = 0;
        while j < keys.len()
            invariant
                ks == keys@.map_values(|k: Key| k@),
                j <= keys@.len(),
                reg.wf(),
                reg@ == ks.subrange(0, j as int),
            decreases keys@.len() - j,
        {
            let k = keys[j].copy();
            if reg.get_id(&k).is_some() || reg.len() >= MAX_IDS as usize {
                proof {
                    if reg@.contains(k@) {
                        let c = choose|c: int| 0 <= c < reg@.len() && reg@[c] == k@;
                        assert(ks[c] == ks[j as int]);
                    }
                }
                return None;
            }
            let ghost before = reg@;
            reg.identify(k);
            assert(reg@ =~= ks.subrange(0, j as int + 1));
            j = j + 1;
        }
        assert(ks.subrange(0, j as int) =~= ks);
        Some(reg)
    }

    /// The key that holds `id`, if any.
    pub fn get(&self, id: u32) -> (r: Option<Key>)
        ensures
            match r {
                Some(k) => id < self@.len() && k@ == self@[id as int],
                None => id >= self@.len(),
            },
    {
        if (id as usize) < self.keys.len() {
            Some(self.keys[id as usize].copy())
        } else {
            None
        }
    }
}

} // verus!
