use vstd::prelude::*;
use vstd::utf8::encode_utf8_decode_utf8;

verus! {

/// Kind of a directory entry.
#[derive(Debug, Clone, Copy, PartialEq, Eq, Structural)]
pub enum FileType {
    File,
    Directory,
}

/// A directory entry: name, kind, first block of its content, and length.
#[derive(Debug)]
pub struct Fcb {
    pub name: String,
    pub file_type: FileType,
    pub first_cluster: usize,
    pub length: usize,
}

/// A directory: its name and its entries, in order.
#[derive(Debug)]
pub struct Directory {
    pub name: String,
    pub files: Vec<Fcb>,
}

/// What an entry stands for.
pub struct FcbModel {
    pub name: Seq<char>,
    pub file_type: FileType,
    pub first_cluster: usize,
    pub length: usize,
}

/// What a directory stands for.
pub struct DirModel {
    pub name: Seq<char>,
    pub files: Seq<FcbModel>,
}

impl View for Fcb {
    type V = FcbModel;

    open spec fn view(&self) -> FcbModel {
        FcbModel {
            name: self.name@,
            file_type: self.file_type,
            first_cluster: self.first_cluster,
            length: self.length,
        }
    }
}

/// What a run of entries stands for.
pub open spec fn fcbs_view(v: Seq<Fcb>) -> Seq<FcbModel> {
    v.map_values(|f: Fcb| f@)
}

impl View for Directory {
    type V = DirModel;

    open spec fn view(&self) -> DirModel {
        DirModel { name: self.name@, files: fcbs_view(self.files@) }
    }
}

/// Index of the first entry of `files` named `name`, if any.
pub open spec fn find_index(files: Seq<FcbModel>, name: Seq<char>) -> Option<int>
    decreases files.len(),
{
    if files.len() == 0 {
        None
    } else {
        match find_index(files.drop_last(), name) {
            Some(i) => Some(i),
            None => if files.last().name == name {
                Some(files.len() - 1)
            } else {
                None
            },
        }
    }
}

/// `find_index` gives the first match, and none means no match.
pub proof fn lemma_find_index(files: Seq<FcbModel>, name: Seq<char>)
    ensures
        match find_index(files, name) {
            Some(i) => 0 <= i < files.len() && files[i].name == name && forall|j: int|
                0 <= j < i ==> #[trigger] files[j].name != name,
            None => forall|j: int| 0 <= j < files.len() ==> #[trigger] files[j].name != name,
        },
    decreases files.len(),
{
    if files.len() > 0 {
        lemma_find_index(files.drop_last(), name);
        assert forall|j: int| 0 <= j < files.len() - 1 implies #[trigger] files[j]
            == files.drop_last()[j] by {}
    }
}

/// Whether two strings hold the same characters.
pub fn str_eq(a: &str, b: &str) -> (r: bool)
    ensures
        r == (a@ == b@),
{
    let x = a.as_bytes();
    let y = b.as_bytes();
    proof {
        encode_utf8_decode_utf8(a@);
        encode_utf8_decode_utf8(b@);
    }
    if x.len() != y.len() {
        return false;
    }
    let mut i: usize = 0;
    while i < x.len()
        invariant
            x@.len() == y@.len(),
            a@ == b@ ==> x@ == y@,
            i <= x@.len(),
            forall|k: int| 0 <= k < i ==> x@[k] == y@[k],
        decreases x@.len() - i,
    {
        if x[i] != y[i] {
            assert(x@[i as int] != y@[i as int]);
            assert(x@ != y@);
            return false;
        }
        i = i + 1;
    }
    assert(x@ =~= y@);
    true
}

impl Fcb {
    /// A copy of this entry.
    pub fn duplicate(&self) -> (r: Fcb)
        ensures
            r@ == self@,
    {
        Fcb {
            name: self.name.clone(),
            file_type: self.file_type,
            first_cluster: self.first_cluster,
            length: self.length,
        }
    }
}

impl Directory {
    /// A copy of this directory.
    pub fn duplicate(&self) -> (r: Directory)
        ensures
            r@ == self@,
    {
        let mut files: Vec<Fcb> = Vec::new();
        let mut i: usize = 0;
        while i < self.files.len()
            invariant
                i <= self.files@.len(),
                files@.len() == i,
                fcbs_view(files@) == self@.files.take(i as int),
            decreases self.files@.len() - i,
        {
            let ghost prev = files@;
            let f = self.files[i].duplicate();
            files.push(f);
            proof {
                assert(self@.files[i as int] == self.files@[i as int]@);
                assert forall|k: int| 0 <= k < i + 1 implies #[trigger] fcbs_view(files@)[k]
                    == self@.files.take(i + 1)[k] by {
                    if k < i {
                        assert(files@[k] == prev[k]);
                        assert(fcbs_view(prev)[k] == self@.files.take(i as int)[k]);
                    }
                }
                assert(fcbs_view(files@) =~= self@.files.take(i + 1));
            }
            i = i + 1;
        }
        assert(self@.files.take(i as int) =~= self@.files);
        let r = Directory { name: self.name.clone(), files };
        assert(r@.files =~= self@.files);
        r
    }

    /// An empty directory called `name`.
    pub fn new(name: &str) -> (r: Directory)
        ensures
            r@.name == name@,
            r@.files.len() == 0,
    {
        let r = Directory { name: name.to_owned(), files: Vec::new() };
        assert(r@.files =~= Seq::<FcbModel>::empty());
        r
    }

    /// The first entry called `name`, with its index.
    pub fn get_fcb(&self, name: &str) -> (r: Option<(usize, &Fcb)>)
        ensures
            match find_index(self@.files, name@) {
                Some(i) => r is Some && r.unwrap().0 == i && r.unwrap().1@ == self@.files[i],
                None => r is None,
            },
    {
        proof {
            lemma_find_index(self@.files, name@);
        }
        let mut i: usize = 0;
        while i < self.files.len()
            invariant
                i <= self.files@.len(),
                forall|j: int| 0 <= j < i ==> #[trigger] self@.files[j].name != name@,
            decreases self.files@.len() - i,
        {
            if str_eq(self.files[i].name.as_str(), name) {
                proof {
                    assert(self@.files[i as int] == self.files@[i as int]@);
                    assert(self@.files[i as int].name == name@);
                    lemma_find_index(self@.files, name@);
                    match find_index(self@.files, name@) {
                        Some(k) => {
                            if k < i {
                                assert(self@.files[k].name != name@);
                            } else if k > i {
                                assert(self@.files[i as int].name != name@);
                            }
                        },
                        None => {
                            assert(self@.files[i as int].name != name@);
                        },
                    }
                    assert(find_index(self@.files, name@) == Some(i as int));
                }
                return Some((i, &self.files[i]));
            }
            assert(self@.files[i as int] == self.files@[i as int]@);
            i = i + 1;
        }
        proof {
            lemma_find_index(self@.files, name@);
            if let Some(k) = find_index(self@.files, name@) {
                assert(self@.files[k].name != name@);
            }
        }
        None
    }

    /// The kind of the entry called `name`, if there is one.
    pub fn get_file_type(&self, name: &str) -> (r: Option<FileType>)
        ensures
            match find_index(self@.files, name@) {
                Some(i) => r == Some(self@.files[i].file_type),
                None => r is None,
            },
    {
        match self.get_fcb(name) {
            Some((_, fcb)) => Some(fcb.file_type),
            None => None,
        }
    }
}

} // verus!
