use vstd::prelude::*;

verus! {

/// A map from names to slots, kept as parallel vectors with unique keys.
pub struct SlotMap {
    keys: Vec<String>,
    slots: Vec<usize>,
    model: Ghost<Map<Seq<char>, usize>>,
}

impl View for SlotMap {
    type V = Map<Seq<char>, usize>;

    closed spec fn view(&self) -> Map<Seq<char>, usize> {
        self.model@
    }
}

impl SlotMap {
    pub closed spec fn wf(&self) -> bool {
        &&& self.keys@.len() == self.slots@.len()
        &&& forall|i: int, j: int|
            0 <= i < j < self.keys@.len() ==> (#[trigger] self.keys@[i])@ != (#[trigger] self.keys@[j])@
        &&& forall|i: int|
            0 <= i < self.keys@.len() ==> self.model@.contains_key((#[trigger] self.keys@[i])@)
                && self.model@[self.keys@[i]@] == self.slots@[i]
        &&& forall|k: Seq<char>|
            #[trigger] self.model@.contains_key(k) ==> exists|i: int|
                0 <= i < self.keys@.len() && (#[trigger] self.keys@[i])@ == k
    }

    pub fn new() -> (r: SlotMap)
        ensures
            r.wf(),
            r@ == Map::<Seq<char>, usize>::empty(),
    {
        SlotMap { keys: Vec::new(), slots: Vec::new(), model: Ghost(Map::empty()) }
    }

    fn position(&self, key: &String) -> (r: Option<usize>)
        requires
            self.wf(),
        ensures
            match r {
                Some(i) => i < self.keys@.len() && self.keys@[i as int]@ == key@,
                None => !self@.contains_key(key@),
            },
    {
        let mut i: usize = 0;
        while i < self.keys.len()
            invariant
                self.wf(),
                i <= self.keys@.len(),
                forall|k: int| 0 <= k < i ==> self.keys@[k]@ != key@,
            decreases self.keys@.len() - i,
        {
            if self.keys[i] == *key {
                return Some(i);
            }
            i += 1;
        }
        None
    }

    /// The slot stored under `key`, if any.
    pub fn get(&self, key: &String) -> (r: Option<usize>)
        requires
            self.wf(),
        ensures
            r == self@.get(key@),
    {
        match self.position(key) {
            Some(i) => Some(self.slots[i]),
            None => None,
        }
    }

    /// Stores `slot` under `key`, replacing what was stored there.
    pub fn insert(&mut self, key: String, slot: usize)
        requires
            old(self).wf(),
        ensures
            final(self).wf(),
            final(self)@ == old(self)@.insert(key@, slot),
    {
        let ghost k = key@;
        match self.position(&key) {
            Some(i) => {
                self.slots.set(i, slot);
                self.model = Ghost(self.model@.insert(k, slot));
                assert forall|j: int| 0 <= j < self.keys@.len() implies
                    self.model@.contains_key((#[trigger] self.keys@[j])@)
                    && self.model@[self.keys@[j]@] == self.slots@[j] by {
                    if j != i {
                        assert(self.keys@[j]@ != self.keys@[i as int]@);
                    }
                }
            },
            None => {
                let ghost old_keys = self.keys@;
                self.keys.push(key);
                self.slots.push(slot);
                self.model = Ghost(self.model@.insert(k, slot));
                assert forall|q: Seq<char>| #[trigger] self.model@.contains_key(q) implies exists|j: int|
                    0 <= j < self.keys@.len() && (#[trigger] self.keys@[j])@ == q by {
                    if q == k {
                        assert(self.keys@[old_keys.len() as int]@ == q);
                    } else {
                        let j = choose|j: int| 0 <= j < old_keys.len() && (#[trigger] old_keys[j])@ == q;
                        assert(self.keys@[j]@ == q);
                    }
                }
            },
        }
    }
}

/// A map from command names to the list of slots that apply to each.
pub struct CommandMap {
    keys: Vec<String>,
    lists: Vec<Vec<usize>>,
    model: Ghost<Map<Seq<char>, Seq<usize>>>,
}

impl View for CommandMap {
    type V = Map<Seq<char>, Seq<usize>>;

    closed spec fn view(&self) -> Map<Seq<char>, Seq<usize>> {
        self.model@
    }
}

impl CommandMap {
    pub closed spec fn wf(&self) -> bool {
        &&& self.keys@.len() == self.lists@.len()
        &&& forall|i: int, j: int|
            0 <= i < j < self.keys@.len() ==> (#[trigger] self.keys@[i])@ != (#[trigger] self.keys@[j])@
        &&& forall|i: int|
            0 <= i < self.keys@.len() ==> self.model@.contains_key((#[trigger] self.keys@[i])@)
                && self.model@[self.keys@[i]@] == self.lists@[i]@
        &&& forall|k: Seq<char>|
            #[trigger] self.model@.contains_key(k) ==> exists|i: int|
                0 <= i < self.keys@.len() && (#[trigger] self.keys@[i])@ == k
    }

    pub fn new() -> (r: CommandMap)
        ensures
            r.wf(),
            r@ == Map::<Seq<char>, Seq<usize>>::empty(),
    {
        CommandMap { keys: Vec::new(), lists: Vec::new(), model: Ghost(Map::empty()) }
    }

    fn position(&self, key: &String) -> (r: Option<usize>)
        requires
            self.wf(),
        ensures
            match r {
                Some(i) => i < self.keys@.len() && self.keys@[i as int]@ == key@,
                None => !self@.contains_key(key@),
            },
    {
        let mut i: usize = 0;
        while i < self.keys.len()
            invariant
                self.wf(),
                i <= self.keys@.len(),
                forall|k: int| 0 <= k < i ==> self.keys@[k]@ != key@,
            decreases self.keys@.len() - i,
        {
            if self.keys[i] == *key {
                return Some(i);
            }
            i += 1;
        }
        None
    }

    /// The slot list stored under `key`, if any.
    pub fn get(&self, key: &String) -> (r: Option<&Vec<usize>>)
        requires
            self.wf(),
        ensures
            match r {
                Some(l) => self@.contains_key(key@) && l@ == self@[key@],
                None => !self@.contains_key(key@),
            },
    {
        match self.position(key) {
            Some(i) => Some(&self.lists[i]),
            None => None,
        }
    }

    /// Stores `list` under `key`, replacing what was stored there.
    pub fn insert(&mut self, key: String, list: Vec<usize>)
        requires
            old(self).wf(),
        ensures
            final(self).wf(),
            final(self)@ == old(self)@.insert(key@, list@),
    {
        let ghost k = key@;
        let ghost l = list@;
        match self.position(&key) {
            Some(i) => {
                self.lists.set(i, list);
                self.model = Ghost(self.model@.insert(k, l));
                assert forall|j: int| 0 <= j < self.keys@.len() implies
                    self.model@.contains_key((#[trigger] self.keys@[j])@)
                    && self.model@[self.keys@[j]@] == self.lists@[j]@ by {
                    if j != i {
                        assert(self.keys@[j]@ != self.keys@[i as int]@);
                    }
                }
            },
            None => {
                let ghost old_keys = self.keys@;
                self.keys.push(key);
                self.lists.push(list);
                self.model = Ghost(self.model@.insert(k, l));
                assert forall|q: Seq<char>| #[trigger] self.model@.contains_key(q) implies exists|j: int|
                    0 <= j < self.keys@.len() && (#[trigger] self.keys@[j])@ == q by {
                    if q == k {
                        assert(self.keys@[old_keys.len() as int]@ == q);
                    } else {
                        let j = choose|j: int| 0 <= j < old_keys.len() && (#[trigger] old_keys[j])@ == q;
                        assert(self.keys@[j]@ == q);
                    }
                }
            },
        }
    }

    /// Appends `slot` to the list under `key`, starting an empty list first
    /// where there is none.
    pub fn push(&mut self, key: &String, slot: usize)
        requires
            old(self).wf(),
        ensures
            final(self).wf(),
            final(self)@ == old(self)@.insert(
                key@,
                (if old(self)@.contains_key(key@) { old(self)@[key@] } else { Seq::empty() }).push(slot),
            ),
    {
        match self.position(key) {
            Some(i) => {
                let ghost k = key@;
                let ghost l0 = self.lists@[i as int]@;
                let mut l = Vec::new();
                std::mem::swap(&mut l, &mut self.lists[i]);
                l.push(slot);
                std::mem::swap(&mut l, &mut self.lists[i]);
                self.model = Ghost(self.model@.insert(k, l0.push(slot)));
                assert forall|j: int| 0 <= j < self.keys@.len() implies
                    self.model@.contains_key((#[trigger] self.keys@[j])@)
                    && self.model@[self.keys@[j]@] == self.lists@[j]@ by {
                    if j != i {
                        assert(self.keys@[j]@ != self.keys@[i as int]@);
                    }
                }
            },
            None => {
                let mut l = Vec::new();
                l.push(slot);
                self.insert(key.clone(), l);
            },
        }
    }

    /// The keys, in the order they were first inserted.
    pub fn keys(&self) -> (r: &Vec<String>)
        requires
            self.wf(),
        ensures
            forall|k: Seq<char>| self@.contains_key(k) <==> exists|i: int| 0 <= i < r@.len() && #[trigger] r@[i]@ == k,
    {
        &self.keys
    }
}

} // verus!
