//! The outputs of one processing session: byte buffers under logical file
//! names, of which a caller takes the one it wants.

use vstd::prelude::*;
use vstd::string::*;

verus! {

/// One produced file: its logical name and its bytes.
pub struct Artifact {
    pub name: String,
    pub data: Vec<u8>,
}

/// The entry at `i` goes by the name `name`.
pub open spec fn named_at(entries: Seq<Artifact>, name: Seq<char>, i: int) -> bool {
    0 <= i < entries.len() && entries[i].name@ == name
}

/// No two entries go by one name.
pub open spec fn names_distinct(entries: Seq<Artifact>) -> bool {
    forall|i: int, j: int|
        0 <= i < j < entries.len() ==> #[trigger] entries[i].name@ != #[trigger] entries[j].name@
}

/// The mapping from name to bytes that the entries stand for.
pub open spec fn contents(entries: Seq<Artifact>) -> Map<Seq<char>, Seq<u8>> {
    Map::new(
        |name: Seq<char>| exists|i: int| named_at(entries, name, i),
        |name: Seq<char>| entries[choose|i: int| named_at(entries, name, i)].data@,
    )
}

/// Among distinct names each entry is found under its own.
pub proof fn lemma_contents_at(entries: Seq<Artifact>, i: int)
    requires
        names_distinct(entries),
        0 <= i < entries.len(),
    ensures
        contents(entries).contains_key(entries[i].name@),
        contents(entries)[entries[i].name@] == entries[i].data@,
{
    let name = entries[i].name@;
    assert(named_at(entries, name, i));
    let k = choose|k: int| named_at(entries, name, k);
    assert(named_at(entries, name, k));
    if k < i {
        assert(entries[k].name@ != entries[i].name@);
    } else if i < k {
        assert(entries[i].name@ != entries[k].name@);
    }
}

/// Entries that hold a file at `k`, in place of the one of that name or as
/// one more behind the others, and are otherwise as before, hold each name
/// once and stand for the mapping as before with that file put in.
pub proof fn lemma_contents_insert(before: Seq<Artifact>, after: Seq<Artifact>, k: int)
    requires
        names_distinct(before),
        0 <= k < after.len(),
        before.len() <= after.len() <= before.len() + 1,
        after.len() == before.len() ==> before[k].name@ == after[k].name@,
        after.len() == before.len() + 1 ==> k == before.len(),
        forall|i: int| 0 <= i < before.len() && i != k ==> #[trigger] after[i] == before[i],
        forall|i: int| 0 <= i < before.len() && i != k ==> #[trigger] before[i].name@ != after[k].name@,
    ensures
        names_distinct(after),
        contents(after) == contents(before).insert(after[k].name@, after[k].data@),
{
    let key = after[k].name@;
    let bytes = after[k].data@;
    assert forall|i: int, j: int| 0 <= i < j < after.len() implies #[trigger] after[i].name@
        != #[trigger] after[j].name@ by {
        if i == k {
            assert(after[j] == before[j]);
        } else if j == k {
            assert(after[i] == before[i]);
        } else {
            assert(after[i] == before[i] && after[j] == before[j]);
        }
    }
    assert forall|n: Seq<char>| #[trigger]
        contents(after).contains_key(n) == contents(before).insert(key, bytes).contains_key(
            n,
        ) by {
        if contents(after).contains_key(n) {
            let i = choose|i: int| named_at(after, n, i);
            if i != k {
                assert(after[i] == before[i]);
                assert(named_at(before, n, i));
            }
        }
        if contents(before).contains_key(n) && n != key {
            let i = choose|i: int| named_at(before, n, i);
            assert(after[i] == before[i]);
            assert(named_at(after, n, i));
        }
        if n == key {
            assert(named_at(after, n, k));
        }
    }
    assert forall|n: Seq<char>| contents(after).contains_key(n) implies #[trigger] contents(
        after,
    )[n] == contents(before).insert(key, bytes)[n] by {
        let i = choose|i: int| named_at(after, n, i);
        assert(named_at(after, n, i));
        lemma_contents_at(after, i);
        if i != k {
            assert(after[i] == before[i]);
            lemma_contents_at(before, i);
        }
    }
    assert(contents(after) =~= contents(before).insert(key, bytes));
}

/// The files that a session has produced, each under its own name.
pub struct ArtifactSet {
    entries: Vec<Artifact>,
}

impl View for ArtifactSet {
    type V = Map<Seq<char>, Seq<u8>>;

    closed spec fn view(&self) -> Map<Seq<char>, Seq<u8>> {
        contents(self.entries@)
    }
}

impl ArtifactSet {
    /// The set holds each name once.
    pub closed spec fn wf(&self) -> bool {
        names_distinct(self.entries@)
    }

    /// A set without files.
    pub fn new() -> (files: ArtifactSet)
        ensures
            files.wf(),
            files@ == Map::<Seq<char>, Seq<u8>>::empty(),
    {
        let files = ArtifactSet { entries: Vec::new() };
        assert(files@ =~= Map::<Seq<char>, Seq<u8>>::empty()) by {
            assert forall|name: Seq<char>| !files@.contains_key(name) by {
                assert forall|i: int| !named_at(files.entries@, name, i) by {}
            }
        }
        files
    }

    /// Where the file of the given name stands among the entries.
    fn position(&self, name: &String) -> (r: Option<usize>)
        ensures
            match r {
                Some(i) => named_at(self.entries@, name@, i as int),
                None => forall|i: int| !named_at(self.entries@, name@, i),
            },
    {
        let mut i: usize = 0;
        while i < self.entries.len()
            invariant
                i <= self.entries@.len(),
                forall|j: int| 0 <= j < i ==> !named_at(self.entries@, name@, j),
            decreases self.entries@.len() - i,
        {
            if self.entries[i].name == *name {
                return Some(i);
            }
            i += 1;
        }
        None
    }

    /// Whether a file of the given name is in the set.
    pub fn contains(&self, name: &str) -> (r: bool)
        requires
            self.wf(),
        ensures
            r == self@.contains_key(name@),
    {
        let key = String::from_str(name);
        self.position(&key).is_some()
    }

    /// Puts a file into the set, in place of one of the same name if there
    /// is one.
    pub fn insert(&mut self, name: String, data: Vec<u8>)
        requires
            old(self).wf(),
        ensures
            final(self).wf(),
            final(self)@ == old(self)@.insert(name@, data@),
    {
        let ghost before = self.entries@;
        let ghost key = name@;
        match self.position(&name) {
            Some(k) => {
                self.entries.set(k, Artifact { name, data });
                proof {
                    lemma_contents_insert(before, self.entries@, k as int);
                }
            },
            None => {
                self.entries.push(Artifact { name, data });
                proof {
                    assert forall|i: int| 0 <= i < before.len() implies #[trigger] before[i].name@
                        != key by {
                        assert(!named_at(before, key, i));
                    }
                    lemma_contents_insert(before, self.entries@, before.len() as int);
                }
            },
        }
    }

    /// Takes the file of the given name out of the set and hands its bytes
    /// over, if there is such a file; the others stay.
    pub fn remove(&mut self, name: &str) -> (r: Option<Vec<u8>>)
        requires
            old(self).wf(),
        ensures
            final(self).wf(),
            final(self)@ == old(self)@.remove(name@),
            !old(self)@.contains_key(name@) ==> final(self)@ == old(self)@,
            match r {
                Some(data) => old(self)@.contains_key(name@) && data@ == old(self)@[name@],
                None => !old(self)@.contains_key(name@),
            },
    {
        let ghost before = self.entries@;
        let key = String::from_str(name);
        match self.position(&key) {
            Some(k) => {
                let taken = self.entries.remove(k);
                proof {
                    let after = self.entries@;
                    let kk = k as int;
                    lemma_contents_at(before, kk);
                    assert forall|i: int| 0 <= i < after.len() implies #[trigger] after[i]
                        == before[if i < kk {
                        i
                    } else {
                        i + 1
                    }] by {}
                    assert forall|i: int, j: int| 0 <= i < j < after.len() implies #[trigger]
                        after[i].name@ != #[trigger] after[j].name@ by {
                        let bi = if i < kk { i } else { i + 1 };
                        let bj = if j < kk { j } else { j + 1 };
                        assert(before[bi].name@ != before[bj].name@);
                    }
                    assert forall|n: Seq<char>| #[trigger]
                        contents(after).contains_key(n) == contents(before).remove(
                            name@,
                        ).contains_key(n) by {
                        if contents(after).contains_key(n) {
                            let i = choose|i: int| named_at(after, n, i);
                            let bi = if i < kk { i } else { i + 1 };
                            assert(named_at(before, n, bi));
                            if bi < kk {
                                assert(before[bi].name@ != before[kk].name@);
                            } else {
                                assert(before[kk].name@ != before[bi].name@);
                            }
                        }
                        if contents(before).contains_key(n) && n != name@ {
                            let j = choose|j: int| named_at(before, n, j);
                            let ai = if j < kk { j } else { j - 1 };
                            assert(named_at(after, n, ai));
                        }
                    }
                    assert forall|n: Seq<char>| contents(after).contains_key(n) implies #[trigger]
                        contents(after)[n] == contents(before).remove(name@)[n] by {
                        let i = choose|i: int| named_at(after, n, i);
                        assert(named_at(after, n, i));
                        lemma_contents_at(after, i);
                        let bi = if i < kk { i } else { i + 1 };
                        lemma_contents_at(before, bi);
                    }
                    assert(contents(after) =~= contents(before).remove(name@));
                }
                Some(taken.data)
            },
            None => {
                proof {
                    assert(!contents(before).contains_key(name@));
                    assert(contents(before) =~= contents(before).remove(name@));
                }
                None
            },
        }
    }
}

/// What a caller gets who asks for the file of the given name: its bytes, or
/// no bytes where there is no such file.
pub open spec fn artifact_or_empty(files: Map<Seq<char>, Seq<u8>>, name: Seq<char>) -> Seq<u8> {
    if files.contains_key(name) {
        files[name]
    } else {
        Seq::empty()
    }
}

/// Consumes the set for the one file of the given name. A name under which
/// nothing was produced gives an empty buffer, never a failure.
pub fn extract_artifact(files: ArtifactSet, name: &str) -> (data: Vec<u8>)
    requires
        files.wf(),
    ensures
        data@ == artifact_or_empty(files@, name@),
        !files@.contains_key(name@) ==> data@.len() == 0,
{
    let mut files = files;
    match files.remove(name) {
        Some(file) => file,
        None => Vec::new(),
    }
}

} // verus!
