use vstd::prelude::*;

verus! {

/// An object store held in memory, laid out as the archive tier is:
/// `<prefix>/<series>/manifest` and `<prefix>/<series>/block_<start>_<end>`.
pub struct MockS3Storage {
    bucket: String,
    prefix: String,
    objects: Vec<(String, Vec<u8>)>,
}

/// The key of object `i`.
pub open spec fn key_at(objs: Seq<(Seq<char>, Seq<u8>)>, i: int) -> Seq<char> {
    objs[i].0
}

/// Whether some object is stored under `key`.
pub open spec fn holds(objs: Seq<(Seq<char>, Seq<u8>)>, key: Seq<char>) -> bool {
    exists|i: int| 0 <= i < objs.len() && key_at(objs, i) == key
}

impl MockS3Storage {
    /// The objects, in the order they were first stored, one per key.
    pub closed spec fn objects(&self) -> Seq<(Seq<char>, Seq<u8>)> {
        self.objects@.map_values(|o: (String, Vec<u8>)| (o.0@, o.1@))
    }

    pub closed spec fn key_prefix(&self) -> Seq<char> {
        self.prefix@
    }

    pub closed spec fn wf(&self) -> bool {
        forall|i: int, j: int|
            0 <= i < j < self.objects@.len() ==> self.objects@[i].0@ != self.objects@[j].0@
    }

    /// An empty store; the key prefix defaults to `count-data`.
    pub fn new(bucket: String, prefix: Option<String>) -> (r: MockS3Storage)
        ensures
            r.wf(),
            r.objects().len() == 0,
            r.key_prefix() == (match prefix {
                Some(p) => p@,
                None => "count-data"@,
            }),
    {
        let prefix = match prefix {
            Some(p) => p,
            None => "count-data".to_owned(),
        };
        let r = MockS3Storage { bucket, prefix, objects: Vec::new() };
        assert(r.objects() =~= Seq::<(Seq<char>, Seq<u8>)>::empty());
        r
    }

    pub fn prefix(&self) -> (r: &String)
        ensures
            r@ == self.key_prefix(),
    {
        &self.prefix
    }

    fn find(&self, key: &String) -> (r: Option<usize>)
        requires
            self.wf(),
        ensures
            match r {
                Some(i) => i < self.objects().len() && key_at(self.objects(), i as int) == key@,
                None => !holds(self.objects(), key@),
            },
    {
        let mut i: usize = 0;
        while i < self.objects.len()
            invariant
                i <= self.objects@.len(),
                forall|j: int| 0 <= j < i ==> key_at(self.objects(), j) != key@,
            decreases self.objects@.len() - i,
        {
            if self.objects[i].0 == *key {
                return Some(i);
            }
            i = i + 1;
        }
        None
    }

    /// Stores `data` under `key`, replacing what was there.
    pub fn put(&mut self, key: String, data: Vec<u8>)
        requires
            old(self).wf(),
        ensures
            final(self).wf(),
            final(self).key_prefix() == old(self).key_prefix(),
            holds(old(self).objects(), key@) ==> exists|i: int|
                0 <= i < old(self).objects().len() && key_at(old(self).objects(), i) == key@
                    && final(self).objects() == old(self).objects().update(i, (key@, data@)),
            !holds(old(self).objects(), key@) ==> final(self).objects() == old(self).objects().push(
                (key@, data@),
            ),
    {
        let ghost k = key@;
        let ghost d = data@;
        match self.find(&key) {
            Some(i) => {
                self.objects.set(i, (key, data));
                proof {
                    assert(self.objects() =~= old(self).objects().update(i as int, (k, d)));
                    let s = self.objects@;
                    let o = old(self).objects@;
                    assert forall|a: int, b: int| 0 <= a < b < s.len() implies s[a].0@ != s[b].0@ by {
                        assert(o[i as int].0@ == k);
                        if a != i {
                            assert(s[a] == o[a]);
                        }
                        if b != i {
                            assert(s[b] == o[b]);
                        }
                    }
                }
            },
            None => {
                self.objects.push((key, data));
                proof {
                    assert(self.objects() =~= old(self).objects().push((k, d)));
                    let s = self.objects@;
                    let o = old(self).objects@;
                    assert forall|a: int, b: int| 0 <= a < b < s.len() implies s[a].0@ != s[b].0@ by {
                        if b == s.len() - 1 {
                            assert(key_at(old(self).objects(), a) != k);
                        }
                    }
                }
            },
        }
    }

    /// A copy of the object stored under `key`.
    pub fn get(&self, key: &String) -> (r: Option<Vec<u8>>)
        requires
            self.wf(),
        ensures
            !holds(self.objects(), key@) ==> r is None,
            forall|i: int|
                0 <= i < self.objects().len() && key_at(self.objects(), i) == key@ ==> (r matches Some(v)
                    && v@ == self.objects()[i].1),
    {
        match self.find(key) {
            None => None,
            Some(i) => {
                proof {
                    assert forall|j: int| 0 <= j < self.objects().len() && key_at(self.objects(), j) == key@ implies j == i by {
                        if j != i {
                            if j < i {
                                assert(self.objects@[j].0@ != self.objects@[i as int].0@);
                            } else {
                                assert(self.objects@[i as int].0@ != self.objects@[j].0@);
                            }
                        }
                    }
                }
                Some(self.objects[i].1.clone())
            },
        }
    }

    /// Removes the object stored under `key`; says whether there was one.
    pub fn delete(&mut self, key: &String) -> (r: bool)
        requires
            old(self).wf(),
        ensures
            final(self).wf(),
            final(self).key_prefix() == old(self).key_prefix(),
            r == holds(old(self).objects(), key@),
            !r ==> final(self).objects() == old(self).objects(),
            r ==> exists|i: int|
                0 <= i < old(self).objects().len() && key_at(old(self).objects(), i) == key@
                    && final(self).objects() == old(self).objects().remove(i),
    {
        match self.find(key) {
            None => false,
            Some(i) => {
                let ghost o = self.objects@;
                self.objects.remove(i);
                proof {
                    assert(self.objects() =~= old(self).objects().remove(i as int));
                    let s = self.objects@;
                    assert forall|a: int, b: int| 0 <= a < b < s.len() implies s[a].0@ != s[b].0@ by {
                        let a0 = if a < i { a } else { a + 1 };
                        let b0 = if b < i { b } else { b + 1 };
                        assert(s[a] == o[a0]);
                        assert(s[b] == o[b0]);
                    }
                }
                true
            },
        }
    }

    pub fn object_count(&self) -> (r: usize)
        ensures
            r == self.objects().len(),
    {
        self.objects.len()
    }

    pub fn has_object(&self, key: &str) -> (r: bool)
        requires
            self.wf(),
        ensures
            r == holds(self.objects(), key@),
    {
        let k = key.to_owned();
        self.find(&k).is_some()
    }

    /// Removes every object.
    pub fn clear(&mut self)
        ensures
            final(self).wf(),
            final(self).objects().len() == 0,
            final(self).key_prefix() == old(self).key_prefix(),
    {
        self.objects = Vec::new();
        assert(self.objects() =~= Seq::<(Seq<char>, Seq<u8>)>::empty());
    }
}

} // verus!
