//! A flat store of text files for tests: paths and texts, no directories.

use crate::path::{same_segments, segments, split_path};
use crate::text::{to_chars, views_of};
use vstd::prelude::*;

verus! {

/// One file of a [`MockFileSystem`].
#[derive(Clone)]
pub struct MockFile {
    pub key: Vec<Vec<char>>,
    pub text: String,
}

/// A flat store of text files. Paths name the same file where their segments
/// are equal.
#[derive(Clone)]
pub struct MockFileSystem {
    files: Vec<MockFile>,
}

/// The keys of `files`, in order.
pub open spec fn mock_keys(files: Seq<MockFile>) -> Seq<Seq<Seq<char>>> {
    Seq::new(files.len(), |k: int| views_of(files[k].key@))
}

impl MockFileSystem {
    /// Whether no two files of the store have the same key.
    pub closed spec fn inv(&self) -> bool {
        mock_keys(self.files@).no_duplicates()
    }

    /// The files of the store: the text of each, by the segments of its path.
    pub closed spec fn view(&self) -> Map<Seq<Seq<char>>, Seq<char>> {
        Map::new(
            |k: Seq<Seq<char>>| mock_keys(self.files@).contains(k),
            |k: Seq<Seq<char>>| self.files@[mock_keys(self.files@).index_of(k)].text@,
        )
    }

    /// A store without files.
    pub fn new() -> (fs: Self)
        ensures
            fs.inv(),
            fs@ == Map::<Seq<Seq<char>>, Seq<char>>::empty(),
    {
        let fs = MockFileSystem { files: Vec::new() };
        assert(fs@ =~= Map::<Seq<Seq<char>>, Seq<char>>::empty());
        fs
    }

    /// The index of the file with the key `key`, if there is one.
    fn find(&self, key: &Vec<Vec<char>>) -> (r: Option<usize>)
        ensures
            match r {
                Some(i) => i < self.files@.len() && mock_keys(self.files@)[i as int] == views_of(
                    key@,
                ),
                None => !mock_keys(self.files@).contains(views_of(key@)),
            },
    {
        let mut i: usize = 0;
        while i < self.files.len()
            invariant
                i <= self.files@.len(),
                forall|j: int| 0 <= j < i ==> mock_keys(self.files@)[j] != views_of(key@),
            decreases self.files@.len() - i,
        {
            if same_segments(&self.files[i].key, key) {
                return Some(i);
            }
            i += 1;
        }
        None
    }

    /// Puts the file with the text `content` at `path`, in place of any file
    /// there.
    pub fn add_file(&mut self, path: &str, content: &str)
        requires
            old(self).inv(),
        ensures
            final(self).inv(),
            final(self)@ == old(self)@.insert(segments(path@), content@),
    {
        let chars = to_chars(path);
        let key = split_path(chars.as_slice());
        let ghost target = views_of(key@);
        let ghost before = self.files@;
        let ghost before_map = self@;
        match self.find(&key) {
            Some(i) => {
                self.files.remove(i);
            },
            None => {},
        }
        let ghost mid = self.files@;
        let file = MockFile { key, text: String::from_str(content) };
        self.files.push(file);
        proof {
            let keys0 = mock_keys(before);
            let keys1 = mock_keys(mid);
            let keys2 = mock_keys(self.files@);
            assert(keys2 =~= keys1.push(target));
            assert(!keys1.contains(target) && keys1.no_duplicates() && (forall|x: Seq<Seq<char>>|
                x != target ==> (keys1.contains(x) <==> keys0.contains(x))) && (forall|j: int|
                0 <= j < mid.len() ==> before_map[#[trigger] keys1[j]] == mid[j].text@)) by {
                if keys0.contains(target) {
                    let i = choose|i: int| 0 <= i < before.len() && keys0[i] == target;
                    assert(keys1 =~= keys0.remove(i));
                    assert forall|x: Seq<Seq<char>>| x != target implies (keys1.contains(x)
                        <==> keys0.contains(x)) by {
                        if keys1.contains(x) {
                            let j = keys1.index_of(x);
                            if j < i {
                                assert(keys0[j] == x);
                            } else {
                                assert(keys0[j + 1] == x);
                            }
                        }
                        if keys0.contains(x) {
                            let j = keys0.index_of(x);
                            if j < i {
                                assert(keys1[j] == x);
                            } else {
                                assert(keys1[j - 1] == x);
                            }
                        }
                    }
                    if keys1.contains(target) {
                        let j = keys1.index_of(target);
                        if j < i {
                            assert(keys0[j] == target);
                        } else {
                            assert(keys0[j + 1] == target);
                        }
                        assert(false);
                    }
                    assert forall|j: int| 0 <= j < mid.len() implies before_map[#[trigger] keys1[j]]
                        == mid[j].text@ by {
                        let o = if j < i {
                            j
                        } else {
                            j + 1
                        };
                        assert(keys0[o] == keys1[j]);
                        assert(keys0.contains(keys1[j]));
                        assert(keys0.index_of(keys1[j]) == o);
                    }
                } else {
                    assert(mid == before);
                    assert forall|j: int| 0 <= j < mid.len() implies before_map[#[trigger] keys1[j]]
                        == mid[j].text@ by {
                        assert(keys0.contains(keys1[j]));
                        assert(keys0.index_of(keys1[j]) == j);
                    }
                }
            }
            assert(keys2.no_duplicates());
            let want = before_map.insert(target, content@);
            assert forall|x: Seq<Seq<char>>| self@.dom().contains(x) <==> want.dom().contains(
                x,
            ) by {
                if keys2.contains(x) {
                    let j = keys2.index_of(x);
                    if j < mid.len() {
                        assert(keys1[j] == x);
                        assert(keys1.contains(x));
                    }
                }
                if x == target {
                    assert(keys2[mid.len() as int] == x);
                } else if keys0.contains(x) {
                    assert(keys1.contains(x));
                    let j = keys1.index_of(x);
                    assert(keys2[j] == x);
                }
            }
            assert forall|x: Seq<Seq<char>>| self@.dom().contains(x) implies self@[x] == want[x] by {
                let j = keys2.index_of(x);
                assert(keys2[j] == x);
                if j < mid.len() {
                    assert(keys1[j] == x);
                }
            }
            assert(self@ =~= want);
        }
    }

    /// The text of the file at `path`, if there is one.
    pub fn read_file(&self, path: &str) -> (r: Option<String>)
        requires
            self.inv(),
        ensures
            match r {
                Some(text) => self@.dom().contains(segments(path@)) && self@[segments(path@)]
                    == text@,
                None => !self@.dom().contains(segments(path@)),
            },
    {
        let chars = to_chars(path);
        let key = split_path(chars.as_slice());
        match self.find(&key) {
            Some(i) => {
                proof {
                    let keys = mock_keys(self.files@);
                    assert(keys.contains(keys[i as int]));
                    assert(keys.index_of(keys[i as int]) == i);
                }
                Some(self.files[i].text.clone())
            },
            None => None,
        }
    }

    /// Puts the file with the text `content` at `path`, in place of any file
    /// there.
    pub fn write_file(&mut self, path: &str, content: &str)
        requires
            old(self).inv(),
        ensures
            final(self).inv(),
            final(self)@ == old(self)@.insert(segments(path@), content@),
    {
        self.add_file(path, content);
    }

    /// Whether there is a file at `path`.
    pub fn file_exists(&self, path: &str) -> (b: bool)
        ensures
            b == self@.dom().contains(segments(path@)),
    {
        let chars = to_chars(path);
        let key = split_path(chars.as_slice());
        self.find(&key).is_some()
    }
}

impl Default for MockFileSystem {
    fn default() -> (fs: Self)
        ensures
            fs.inv(),
            fs@ == Map::<Seq<Seq<char>>, Seq<char>>::empty(),
    {
        MockFileSystem::new()
    }
}

/// A store without files, to set a test up with.
pub fn setup_test_env() -> (fs: MockFileSystem)
    ensures
        fs.inv(),
        fs@ == Map::<Seq<Seq<char>>, Seq<char>>::empty(),
{
    MockFileSystem::new()
}

} // verus!
