use vstd::prelude::*;
use vstd::string::StringExecFns;
use vstd::utf8::{is_ascii_chars, is_ascii_chars_encode_utf8};
use crate::directory::{Directory, Fcb, FileType, DirModel, FcbModel, find_index, lemma_find_index, str_eq};
use crate::codec::{dir_bytes, decode_directory, encode_directory, lemma_dir_bytes_injective, lemma_two_entry_len};
use crate::disk::{Disk, FATItem, BLOCK_SIZE, BLOCK_COUNT, blocks_concat, strip_marker, in_blocks, valid_clusters};
use crate::error::FsError;
use crate::path::{path_segments, split_path, strings_view};
use crate::fat::{
    plain_chain, lemma_chain_frame, lemma_free_all_mono,
    lemma_count_free_all,
    count_free, count_used, walk, chain_of, free_all, blocks_for, needs_marker, stored_image,
    increasing, readable_back, lemma_count_free_le, lemma_count_free_none,
    lemma_count_free_update, lemma_chain_bounds, lemma_walk_linked,
    lemma_stored_content, lemma_stored_image_len,
};

verus! {

/// The content held by the chain that starts at `first`, if that chain is sound.
pub open spec fn content_at(fat: Seq<FATItem>, data: Seq<u8>, first: usize) -> Option<Seq<u8>> {
    match chain_of(fat, first) {
        Some(cs) => Some(strip_marker(blocks_concat(data, cs))),
        None => None,
    }
}

/// `new` is `old` with the blocks `cs` taken: the lowest free blocks, in
/// ascending order, linked one to the next, the last one ending the chain.
#[verifier::opaque]
pub open spec fn allocated(old: Seq<FATItem>, new: Seq<FATItem>, cs: Seq<usize>) -> bool {
    &&& new.len() == old.len()
    &&& cs.len() <= old.len()
    &&& increasing(cs)
    &&& forall|i: int| 0 <= i < cs.len() ==> #[trigger] cs[i] < old.len() && old[cs[i] as int] == FATItem::UnUsed
    &&& forall|k: usize|
        k < old.len() && old[k as int] == FATItem::UnUsed && cs.len() > 0 && k < cs.last()
            ==> #[trigger] cs.contains(k)
    &&& forall|i: int| 0 <= i < cs.len() - 1 ==> new[#[trigger] cs[i] as int] == FATItem::Cluster(cs[i + 1])
    &&& cs.len() > 0 ==> new[cs.last() as int] == FATItem::EOF
    &&& forall|k: usize| k < old.len() && !cs.contains(k) ==> #[trigger] new[k as int] == old[k as int]
    &&& count_free(new) + cs.len() == count_free(old)
}

/// The plain facts that an allocation gives about the chain it took.
pub proof fn lemma_allocated_chain(old: Seq<FATItem>, new: Seq<FATItem>, cs: Seq<usize>)
    requires
        allocated(old, new, cs),
    ensures
        new.len() == old.len(),
        cs.len() <= old.len(),
        increasing(cs),
        forall|i: int| 0 <= i < cs.len() ==> #[trigger] cs[i] < old.len() && old[cs[i] as int] == FATItem::UnUsed,
        forall|i: int| 0 <= i < cs.len() - 1 ==> new[#[trigger] cs[i] as int] == FATItem::Cluster(cs[i + 1]),
        cs.len() > 0 ==> new[cs.last() as int] == FATItem::EOF,
{
    reveal(allocated);
}

/// Block `first` put in front of a linked chain `rs` gives a linked chain.
proof fn lemma_prefixed_chain(fat: Seq<FATItem>, first: usize, rs: Seq<usize>, cs: Seq<usize>)
    requires
        cs == seq![first] + rs,
        first < fat.len(),
        increasing(rs),
        forall|a: int| 0 <= a < rs.len() ==> #[trigger] rs[a] < fat.len() && rs[a] != first,
        forall|a: int| 0 <= a < rs.len() - 1 ==> fat[#[trigger] rs[a] as int] == FATItem::Cluster(rs[a + 1]),
        rs.len() > 0 ==> fat[rs.last() as int] == FATItem::EOF && fat[first as int] == FATItem::Cluster(rs[0]),
        rs.len() == 0 ==> fat[first as int] == FATItem::EOF,
    ensures
        valid_clusters(cs, fat.len()),
        forall|a: int| 0 <= a < cs.len() - 1 ==> fat[#[trigger] cs[a] as int] == FATItem::Cluster(cs[a + 1]),
        fat[cs.last() as int] == FATItem::EOF,
{
    assert forall|a: int, b: int| 0 <= a < cs.len() && 0 <= b < cs.len() && a != b implies cs[a] != cs[b] by {
        if a > 0 && b > 0 {
            assert(cs[a] == rs[a - 1] && cs[b] == rs[b - 1]);
            if a < b {
                assert(rs[a - 1] < rs[b - 1]);
            } else {
                assert(rs[b - 1] < rs[a - 1]);
            }
        } else if a == 0 {
            assert(cs[b] == rs[b - 1]);
        } else {
            assert(cs[a] == rs[a - 1]);
        }
    }
    assert forall|a: int| 0 <= a < cs.len() implies #[trigger] cs[a] < fat.len() by {
        if a > 0 {
            assert(cs[a] == rs[a - 1]);
        }
    }
    assert forall|a: int| 0 <= a < cs.len() - 1 implies fat[#[trigger] cs[a] as int] == FATItem::Cluster(cs[a + 1]) by {
        if a > 0 {
            assert(cs[a] == rs[a - 1]);
            assert(cs[a + 1] == rs[a]);
        }
    }
    if rs.len() > 0 {
        assert(cs.last() == rs.last());
    }
}

/// Block `first`, already taken, put in front of the chain `rs` that an
/// allocation took, gives one linked chain.
proof fn lemma_reserved_chain(
    mid: Seq<FATItem>,
    after: Seq<FATItem>,
    fin: Seq<FATItem>,
    first: usize,
    rs: Seq<usize>,
    cs: Seq<usize>,
)
    requires
        allocated(mid, after, rs),
        first < mid.len(),
        mid[first as int] == FATItem::EOF,
        fin == (if rs.len() > 0 {
            after.update(first as int, FATItem::Cluster(rs[0]))
        } else {
            after
        }),
        cs == seq![first] + rs,
    ensures
        fin.len() == mid.len(),
        cs.len() <= fin.len(),
        valid_clusters(cs, fin.len()),
        forall|a: int| 0 <= a < cs.len() - 1 ==> fin[#[trigger] cs[a] as int] == FATItem::Cluster(cs[a + 1]),
        fin[cs.last() as int] == FATItem::EOF,
{
    lemma_reserved_facts(mid, after, fin, first, rs);
    lemma_prefixed_chain(fin, first, rs, cs);
}

proof fn lemma_reserved_facts(
    mid: Seq<FATItem>,
    after: Seq<FATItem>,
    fin: Seq<FATItem>,
    first: usize,
    rs: Seq<usize>,
)
    requires
        allocated(mid, after, rs),
        first < mid.len(),
        mid[first as int] == FATItem::EOF,
        fin == (if rs.len() > 0 {
            after.update(first as int, FATItem::Cluster(rs[0]))
        } else {
            after
        }),
    ensures
        fin.len() == mid.len(),
        rs.len() + 1 <= fin.len(),
        increasing(rs),
        forall|a: int| 0 <= a < rs.len() ==> #[trigger] rs[a] < fin.len() && rs[a] != first,
        forall|a: int| 0 <= a < rs.len() - 1 ==> fin[#[trigger] rs[a] as int] == FATItem::Cluster(rs[a + 1]),
        rs.len() > 0 ==> fin[rs.last() as int] == FATItem::EOF && fin[first as int] == FATItem::Cluster(rs[0]),
        rs.len() == 0 ==> fin[first as int] == FATItem::EOF,
{
    reveal(allocated);
    assert forall|a: int| 0 <= a < rs.len() implies #[trigger] rs[a] < fin.len() && rs[a] != first by {
        assert(mid[rs[a] as int] == FATItem::UnUsed);
    }
    if rs.len() + 1 > mid.len() {
        assert(!rs.contains(first)) by {
            if rs.contains(first) {
                let k = choose|k: int| 0 <= k < rs.len() && rs[k] == first;
                assert(mid[rs[k] as int] == FATItem::UnUsed);
            }
        }
        lemma_count_free_le(mid);
        lemma_count_free_update(mid, first as int, FATItem::UnUsed);
        lemma_count_free_le(mid.update(first as int, FATItem::UnUsed));
    }
}

/// What reserving a chain leaves alone: every entry off the chain, and the
/// blocks after its first were free before.
proof fn lemma_reserved_frame(
    old: Seq<FATItem>,
    mid: Seq<FATItem>,
    after: Seq<FATItem>,
    fin: Seq<FATItem>,
    first: usize,
    rs: Seq<usize>,
    cs: Seq<usize>,
)
    requires
        first < old.len(),
        mid == old.update(first as int, FATItem::EOF),
        allocated(mid, after, rs),
        fin == (if rs.len() > 0 {
            after.update(first as int, FATItem::Cluster(rs[0]))
        } else {
            after
        }),
        cs == seq![first] + rs,
    ensures
        forall|k: usize| k < old.len() && !cs.contains(k) ==> #[trigger] fin[k as int] == old[k as int],
        forall|a: int| 1 <= a < cs.len() ==> old[#[trigger] cs[a] as int] == FATItem::UnUsed,
{
    reveal(allocated);
    assert forall|k: usize| k < old.len() && !cs.contains(k) implies #[trigger] fin[k as int] == old[k as int] by {
        assert(cs[0] == first);
        assert(k != first);
        if rs.contains(k) {
            let j = choose|j: int| 0 <= j < rs.len() && rs[j] == k;
            assert(cs[j + 1] == k);
        }
        assert(after[k as int] == mid[k as int]);
    }
    assert forall|a: int| 1 <= a < cs.len() implies old[#[trigger] cs[a] as int] == FATItem::UnUsed by {
        assert(cs[a] == rs[a - 1]);
        assert(mid[rs[a - 1] as int] == FATItem::UnUsed);
    }
}

/// How an allocation moves the free count.
proof fn lemma_allocated_count(old: Seq<FATItem>, new: Seq<FATItem>, cs: Seq<usize>)
    requires
        allocated(old, new, cs),
    ensures
        count_free(new) + cs.len() == count_free(old),
{
    reveal(allocated);
}

/// The free count of a reserved chain: the first block and the blocks taken.
proof fn lemma_reserved_count(
    old: Seq<FATItem>,
    mid: Seq<FATItem>,
    after: Seq<FATItem>,
    fin: Seq<FATItem>,
    first: usize,
    rs: Seq<usize>,
)
    requires
        first < old.len(),
        old[first as int] == FATItem::UnUsed,
        mid == old.update(first as int, FATItem::EOF),
        allocated(mid, after, rs),
        fin == (if rs.len() > 0 {
            after.update(first as int, FATItem::Cluster(rs[0]))
        } else {
            after
        }),
    ensures
        count_free(fin) + rs.len() + 1 == count_free(old),
{
    lemma_count_free_update(old, first as int, FATItem::EOF);
    lemma_allocated_count(mid, after, rs);
    lemma_reserved_facts(mid, after, fin, first, rs);
    if rs.len() > 0 {
        lemma_allocated_outside(mid, after, rs);
        assert(!rs.contains(first)) by {
            if rs.contains(first) {
                let j = choose|j: int| 0 <= j < rs.len() && rs[j] == first;
                assert(rs[j] != first);
            }
        }
        assert(after[first as int] == FATItem::EOF);
        lemma_count_free_update(after, first as int, FATItem::Cluster(rs[0]));
    }
}

/// An allocation that takes blocks starts at the lowest free block.
pub proof fn lemma_allocation_starts_lowest(old: Seq<FATItem>, new: Seq<FATItem>, cs: Seq<usize>, k: usize)
    requires
        allocated(old, new, cs),
        cs.len() > 0,
        k < old.len(),
        old[k as int] == FATItem::UnUsed,
        forall|j: int| 0 <= j < k ==> #[trigger] old[j] != FATItem::UnUsed,
    ensures
        cs[0] == k,
{
    reveal(allocated);
    assert(old[cs[0] as int] == FATItem::UnUsed);
    if cs[0] != k {
        assert(k < cs[0]);
        if cs.len() > 1 {
            assert(cs[0] < cs[cs.len() - 1]);
        }
        assert(cs.contains(k));
        let m = choose|m: int| 0 <= m < cs.len() && cs[m] == k;
        if m > 0 {
            assert(cs[0] < cs[m]);
        }
    }
}

/// The stored form of the default root is 87 bytes long: one block.
proof fn lemma_default_root_len()
    ensures
        dir_bytes(default_root()).len() == 87,
        blocks_for(87) == 1,
{
    reveal_strlit("root");
    reveal_strlit(".");
    reveal_strlit("..");
    let names = seq!["root"@, "."@, ".."@];
    assert forall|k: int| 0 <= k < 3 implies is_ascii_chars(#[trigger] names[k]) by {}
    is_ascii_chars_encode_utf8("root"@);
    is_ascii_chars_encode_utf8("."@);
    is_ascii_chars_encode_utf8(".."@);
    reveal_with_fuel(crate::codec::fcbs_rec, 3);
    let fs = own_entries(0, 0);
    assert(fs.drop_last().drop_last().len() == 0);
    assert(fs.drop_last().last() == fs[0]);
    crate::codec::lemma_le_len(4, 8);
    crate::codec::lemma_le_len(1, 8);
    crate::codec::lemma_le_len(2, 8);
    crate::codec::lemma_le_len(0, 8);
    assert(crate::codec::type_tag(FileType::Directory) == 1);
}

/// `new_fat` and `new_data` are `old_fat` and `old_data` with the payload `b`
/// stored on a fresh chain that starts at `first`.
pub open spec fn written(
    old_fat: Seq<FATItem>,
    old_data: Seq<u8>,
    new_fat: Seq<FATItem>,
    new_data: Seq<u8>,
    first: usize,
    b: Seq<u8>,
) -> bool {
    &&& chain_of(new_fat, first) is Some
    &&& chain_of(new_fat, first)->0.len() == blocks_for(b.len())
    &&& allocated(old_fat, new_fat, chain_of(new_fat, first)->0)
    &&& blocks_concat(new_data, chain_of(new_fat, first)->0) == stored_image(b)
    &&& new_data.len() == old_data.len()
    &&& forall|k: int|
        0 <= k < new_data.len() && !in_blocks(chain_of(new_fat, first)->0, k) ==> #[trigger] new_data[k]
            == old_data[k]
}

/// `a + b`, or the largest `usize` where that does not fit.
pub open spec fn sat_add(a: usize, b: nat) -> usize {
    if a + b > usize::MAX {
        usize::MAX
    } else {
        (a + b) as usize
    }
}

/// `a - b`, or zero where `b` is larger.
pub open spec fn sat_sub(a: usize, b: usize) -> usize {
    if a < b {
        0
    } else {
        (a - b) as usize
    }
}

/// The entries with the length of the first one (the directory's own entry)
/// set to `len`.
pub open spec fn with_self_length(files: Seq<FcbModel>, len: usize) -> Seq<FcbModel> {
    files.update(
        0,
        FcbModel {
            name: files[0].name,
            file_type: files[0].file_type,
            first_cluster: files[0].first_cluster,
            length: len,
        },
    )
}

/// What loading the directory stored on the chain at `first` gives: the
/// chain's content must be the stored form of a directory.
pub open spec fn loads(
    fat: Seq<FATItem>,
    data: Seq<u8>,
    first: usize,
    r: Result<Directory, FsError>,
) -> bool {
    match content_at(fat, data, first) {
        None => r is Err && r->Err_0 == FsError::CorruptChain,
        Some(c) => match r {
            Ok(d) => dir_bytes(d@) == c,
            Err(e) => e == FsError::CorruptDirectory && forall|d: DirModel| #[trigger] dir_bytes(d) != c,
        },
    }
}

/// The chain at `first` holds a directory with no entries besides its own two.
pub open spec fn empty_dir_at(fat: Seq<FATItem>, data: Seq<u8>, first: usize) -> bool {
    &&& content_at(fat, data, first) is Some
    &&& exists|d: DirModel| #[trigger] dir_bytes(d) == content_at(fat, data, first)->0 && d.files.len() == 2
}

/// The chain at `first` holds exactly the stored image of `b`.
pub open spec fn holds(fat: Seq<FATItem>, data: Seq<u8>, first: usize, b: Seq<u8>) -> bool {
    &&& chain_of(fat, first) is Some
    &&& chain_of(fat, first)->0.len() == blocks_for(b.len())
    &&& blocks_concat(data, chain_of(fat, first)->0) == stored_image(b)
}

/// A directory's own entry and its parent's entry.
pub open spec fn own_entries(me: usize, parent: usize) -> Seq<FcbModel> {
    seq![
        FcbModel { name: "."@, file_type: FileType::Directory, first_cluster: me, length: 0 },
        FcbModel { name: ".."@, file_type: FileType::Directory, first_cluster: parent, length: 0 },
    ]
}

/// The root directory of a fresh volume.
pub open spec fn default_root() -> DirModel {
    DirModel { name: "root"@, files: own_entries(0, 0) }
}

/// A fresh table: every block free.
pub open spec fn fresh_fat(n: nat) -> Seq<FATItem> {
    Seq::new(n, |i: int| FATItem::UnUsed)
}

/// `d` with the length of its entry called `child` set to `size`.
pub open spec fn with_child_length(d: DirModel, child: Seq<char>, size: usize) -> DirModel {
    match find_index(d.files, child) {
        Some(j) => DirModel {
            name: d.name,
            files: d.files.update(
                j,
                FcbModel {
                    name: d.files[j].name,
                    file_type: d.files[j].file_type,
                    first_cluster: d.files[j].first_cluster,
                    length: size,
                },
            ),
        },
        None => d,
    }
}

/// Following the names `segs` from directory `d`, loading each directory
/// from disk, and where it fails.
pub open spec fn walk_path(fat: Seq<FATItem>, data: Seq<u8>, d: DirModel, segs: Seq<Seq<char>>) -> Result<DirModel, FsError>
    decreases segs.len(),
{
    if segs.len() == 0 {
        Ok(d)
    } else {
        match find_index(d.files, segs[0]) {
            None => Err(FsError::NotFound),
            Some(j) => if d.files[j].file_type == FileType::File {
                Err(FsError::NotADirectory)
            } else {
                match content_at(fat, data, d.files[j].first_cluster) {
                    None => Err(FsError::CorruptChain),
                    Some(c) => if exists|e: DirModel| #[trigger] dir_bytes(e) == c {
                        walk_path(fat, data, choose|e: DirModel| #[trigger] dir_bytes(e) == c, segs.drop_first())
                    } else {
                        Err(FsError::CorruptDirectory)
                    },
                }
            },
        }
    }
}

/// `d` with entry `f` added and its length added to `d`'s own entry.
pub open spec fn with_entry(d: DirModel, f: FcbModel) -> DirModel {
    DirModel {
        name: d.name,
        files: with_self_length(d.files, sat_add(d.files[0].length, f.length as nat)).push(f),
    }
}

/// The working directory once entry `i` has moved out: the entry is gone and
/// its length is taken off the directory's own entry.
pub open spec fn without_entry(d: DirModel, i: int) -> DirModel {
    DirModel {
        name: d.name,
        files: with_self_length(d.files, sat_sub(d.files[0].length, d.files[i].length)).remove(i),
    }
}

/// The names from directory `d` up to the root (the root's own name left
/// out), following `..` entries and loading each parent from disk, within
/// `fuel` steps; and where it fails.
pub open spec fn walk_up(fat: Seq<FATItem>, data: Seq<u8>, d: DirModel, fuel: nat) -> Result<Seq<Seq<char>>, FsError>
    decreases fuel,
{
    if d.name == "root"@ {
        Ok(Seq::empty())
    } else if fuel == 0 {
        Err(FsError::CorruptDirectory)
    } else {
        match find_index(d.files, ".."@) {
            None => Err(FsError::NotFound),
            Some(j) => if d.files[j].file_type == FileType::File {
                Err(FsError::NotADirectory)
            } else {
                match content_at(fat, data, d.files[j].first_cluster) {
                    None => Err(FsError::CorruptChain),
                    Some(c) => if exists|e: DirModel| #[trigger] dir_bytes(e) == c {
                        match walk_up(fat, data, choose|e: DirModel| #[trigger] dir_bytes(e) == c, (fuel - 1) as nat) {
                            Ok(rest) => Ok(seq![d.name] + rest),
                            Err(x) => Err(x),
                        }
                    } else {
                        Err(FsError::CorruptDirectory)
                    },
                }
            },
        }
    }
}

/// The absolute path of a directory whose names up to the root, nearest
/// first, are `names`.
pub open spec fn path_text(names: Seq<Seq<char>>) -> Seq<char>
    decreases names.len(),
{
    if names.len() == 0 {
        "/root"@
    } else {
        path_text(names.drop_first()) + "/"@ + names[0]
    }
}

/// Storing a payload and then freeing its chain gives back every block it
/// took: the free count returns to what it was.
pub proof fn lemma_store_then_free_restores(
    f0: Seq<FATItem>,
    d0: Seq<u8>,
    f1: Seq<FATItem>,
    d1: Seq<u8>,
    first: usize,
    b: Seq<u8>,
)
    requires
        written(f0, d0, f1, d1, first, b),
        f0.len() <= usize::MAX,
    ensures
        count_free(free_all(f1, chain_of(f1, first)->0)) == count_free(f0),
{
    let cs = chain_of(f1, first)->0;
    reveal(allocated);
    assert forall|i: int| 0 <= i < cs.len() implies (#[trigger] cs[i]) < f1.len() && f1[cs[i] as int]
        != FATItem::UnUsed by {
        if i < cs.len() - 1 {
            assert(f1[cs[i] as int] == FATItem::Cluster(cs[i + 1]));
        }
    }
    assert forall|i: int, j: int| 0 <= i < cs.len() && 0 <= j < cs.len() && i != j implies cs[i] != cs[j] by {
        if i < j {
            assert(cs[i] < cs[j]);
        } else {
            assert(cs[j] < cs[i]);
        }
    }
    crate::fat::lemma_free_all_count(f1, cs);
}

/// A directory just made holds only its own two entries, so it can be
/// deleted again, as long as its stored form reads back whole.
pub proof fn lemma_new_directory_is_empty(
    f0: Seq<FATItem>,
    d0: Seq<u8>,
    f1: Seq<FATItem>,
    d1: Seq<u8>,
    first: usize,
    name: Seq<char>,
    parent: usize,
)
    requires
        written(f0, d0, f1, d1, first, dir_bytes(DirModel { name, files: own_entries(first, parent) })),
        readable_back(dir_bytes(DirModel { name, files: own_entries(first, parent) })),
    ensures
        empty_dir_at(f1, d1, first),
{
    let m = DirModel { name, files: own_entries(first, parent) };
    lemma_stored_content(dir_bytes(m));
    assert(content_at(f1, d1, first) == Some(dir_bytes(m)));
    assert(dir_bytes(m) == content_at(f1, d1, first)->0 && m.files.len() == 2);
}

/// After a move, the name no longer resolves in the directory it left, and
/// in the directory it went to it resolves to the very same entry, first
/// block included; this holds where the name was not repeated among the
/// entries it left.
pub proof fn lemma_move_relocates(d: DirModel, i: int, m: DirModel)
    requires
        0 <= i < d.files.len(),
        i >= 2,
        forall|j: int| 0 <= j < d.files.len() && j != i ==> #[trigger] d.files[j].name != d.files[i].name,
        m.files.len() >= 1,
        find_index(m.files, d.files[i].name) is None,
    ensures
        find_index(without_entry(d, i).files, d.files[i].name) is None,
        find_index(with_entry(m, d.files[i]).files, d.files[i].name) == Some(m.files.len() as int),
        with_entry(m, d.files[i]).files[m.files.len() as int] == d.files[i],
{
    let f = d.files[i];
    let src = without_entry(d, i).files;
    lemma_find_index(src, f.name);
    if let Some(k) = find_index(src, f.name) {
        if k < i {
            assert(src[k] == with_self_length(d.files, sat_sub(d.files[0].length, f.length))[k]);
            if k > 0 {
                assert(src[k] == d.files[k]);
            }
        } else {
            assert(src[k] == d.files[k + 1]);
        }
    }
    let dst = with_entry(m, f).files;
    lemma_find_index(m.files, f.name);
    lemma_find_index(dst, f.name);
    assert(dst.drop_last() =~= with_self_length(m.files, sat_add(m.files[0].length, f.length as nat)));
    assert forall|j: int| 0 <= j < m.files.len() implies #[trigger] dst[j].name != f.name by {
        assert(dst[j].name == m.files[j].name);
    }
}

/// Freeing one chain leaves the content of another chain, which shares no
/// block with it and has no bad entry, as it was: a copy stays readable
/// after its original is deleted.
pub proof fn lemma_free_other_chain_keeps(fat: Seq<FATItem>, data: Seq<u8>, c: usize, o: usize)
    requires
        fat.len() <= usize::MAX,
        chain_of(fat, c) is Some,
        plain_chain(fat, chain_of(fat, c)->0),
        chain_of(fat, o) is Some,
        forall|i: int, j: int|
            0 <= i < chain_of(fat, c)->0.len() && 0 <= j < chain_of(fat, o)->0.len()
                ==> #[trigger] chain_of(fat, c)->0[i] != #[trigger] chain_of(fat, o)->0[j],
    ensures
        content_at(free_all(fat, chain_of(fat, o)->0), data, c) == content_at(fat, data, c),
{
    let cc = chain_of(fat, c)->0;
    let co = chain_of(fat, o)->0;
    let f2 = free_all(fat, co);
    lemma_chain_bounds(fat, c);
    assert forall|i: int| 0 <= i < cc.len() implies f2[#[trigger] cc[i] as int] == fat[cc[i] as int] by {
        if co.contains(cc[i]) {
            let j = choose|j: int| 0 <= j < co.len() && co[j] == cc[i];
            assert(cc[i] != co[j]);
        }
    }
    lemma_chain_frame(fat, f2, c);
}

/// The content of a chain without bad entries stays as it was while its own
/// table entries and its own blocks stay as they were.
pub proof fn lemma_content_frame(
    f1: Seq<FATItem>,
    d1: Seq<u8>,
    f2: Seq<FATItem>,
    d2: Seq<u8>,
    p: usize,
)
    requires
        chain_of(f1, p) is Some,
        plain_chain(f1, chain_of(f1, p)->0),
        f1.len() == f2.len(),
        d1.len() == f1.len() * BLOCK_SIZE,
        d2.len() == d1.len(),
        forall|i: int|
            0 <= i < chain_of(f1, p)->0.len() ==> f2[#[trigger] chain_of(f1, p)->0[i] as int] == f1[chain_of(f1, p)->0[i] as int],
        forall|k: int| 0 <= k < d1.len() && in_blocks(chain_of(f1, p)->0, k) ==> #[trigger] d2[k] == d1[k],
    ensures
        content_at(f2, d2, p) == content_at(f1, d1, p),
{
    let cp = chain_of(f1, p)->0;
    lemma_chain_frame(f1, f2, p);
    lemma_chain_bounds(f1, p);
    assert forall|i: int| 0 <= i < cp.len() implies (#[trigger] cp[i]) * BLOCK_SIZE + BLOCK_SIZE <= d1.len() by {
        crate::disk::lemma_block_in_range(cp[i] as int, 0, f1.len() as int);
    }
    crate::disk::lemma_blocks_concat_index(d1, cp);
    let img = blocks_concat(d1, cp);
    assert forall|i: int, j: int| 0 <= i < cp.len() && 0 <= j < BLOCK_SIZE implies #[trigger] d2[cp[i] * BLOCK_SIZE + j]
        == img[i * BLOCK_SIZE + j] by {
        let k = cp[i] * BLOCK_SIZE + j;
        crate::disk::lemma_block_in_range(cp[i] as int, j, f1.len() as int);
        assert(in_blocks(cp, k));
        assert(d1[k] == img[i * BLOCK_SIZE + j]);
    }
    crate::disk::lemma_blocks_concat(d2, cp, img);
}

/// Entries off an allocated chain are left as they were.
proof fn lemma_allocated_outside(old: Seq<FATItem>, new: Seq<FATItem>, cs: Seq<usize>)
    requires
        allocated(old, new, cs),
    ensures
        forall|k: usize| k < old.len() && !cs.contains(k) ==> #[trigger] new[k as int] == old[k as int],
        forall|i: int| 0 <= i < cs.len() ==> old[#[trigger] cs[i] as int] == FATItem::UnUsed,
        forall|i: int| 0 <= i < cs.len() ==> #[trigger] cs[i] < old.len(),
        new.len() == old.len(),
{
    reveal(allocated);
}

/// A payload just stored on chain `p` keeps its content while a directory
/// whose chain (before the payload was stored) had no bad or free entries
/// is written back.
proof fn lemma_stored_survives_save(
    f0: Seq<FATItem>,
    d0: Seq<u8>,
    f1: Seq<FATItem>,
    d1: Seq<u8>,
    f2: Seq<FATItem>,
    d2: Seq<u8>,
    p: usize,
    b: Seq<u8>,
    df: usize,
)
    requires
        written(f0, d0, f1, d1, p, b),
        d1.len() == f1.len() * BLOCK_SIZE,
        d2.len() == d1.len(),
        f0.len() <= usize::MAX,
        chain_of(f0, df) is Some,
        plain_chain(f0, chain_of(f0, df)->0),
        chain_of(f1, df) is Some,
        f2.len() == f1.len(),
        chain_of(f2, df)->0[0] == df,
        forall|k: usize|
            k < f1.len() && !chain_of(f1, df)->0.contains(k) && !chain_of(f2, df)->0.contains(k)
                ==> #[trigger] f2[k as int] == f1[k as int],
        forall|a: int|
            1 <= a < chain_of(f2, df)->0.len() ==> f1[#[trigger] chain_of(f2, df)->0[a] as int]
                == FATItem::UnUsed || chain_of(f1, df)->0.contains(chain_of(f2, df)->0[a]),
        forall|k: int|
            0 <= k < d2.len() && !in_blocks(chain_of(f2, df)->0, k) ==> #[trigger] d2[k] == d1[k],
    ensures
        content_at(f2, d2, p) == content_at(f1, d1, p),
        chain_of(f2, p) == chain_of(f1, p),
{
    let cp = chain_of(f1, p)->0;
    let oc0 = chain_of(f0, df)->0;
    let nc = chain_of(f2, df)->0;
    lemma_allocated_outside(f0, f1, cp);
    lemma_allocated_chain(f0, f1, cp);
    lemma_chain_bounds(f0, df);
    assert forall|i: int| 0 <= i < oc0.len() implies !cp.contains(#[trigger] oc0[i]) by {
        if cp.contains(oc0[i]) {
            let j = choose|j: int| 0 <= j < cp.len() && cp[j] == oc0[i];
            assert(f0[cp[j] as int] == FATItem::UnUsed);
            assert(f0[oc0[i] as int] is Cluster || f0[oc0[i] as int] is EOF);
        }
    }
    assert forall|i: int| 0 <= i < oc0.len() implies f1[#[trigger] oc0[i] as int] == f0[oc0[i] as int] by {
        assert(!cp.contains(oc0[i]));
    }
    lemma_chain_frame(f0, f1, df);
    let oc = chain_of(f1, df)->0;
    assert(oc == oc0);
    assert forall|i: int| 0 <= i < cp.len() implies (#[trigger] f1[cp[i] as int] is Cluster || f1[cp[i] as int] is EOF) by {
        if i < cp.len() - 1 {
            assert(f1[cp[i] as int] == FATItem::Cluster(cp[i + 1]));
        }
    }
    assert forall|i: int| 0 <= i < cp.len() implies !oc.contains(#[trigger] cp[i]) by {
        if oc.contains(cp[i]) {
            let j = choose|j: int| 0 <= j < oc.len() && oc[j] == cp[i];
            assert(!cp.contains(oc0[j]));
            assert(cp.contains(cp[i]));
        }
    }
    lemma_save_keeps_chain(f1, d1, f2, d2, df, p);
}

/// Writing a directory back onto the chain at `df` keeps any chain that has
/// no bad or free entries and shares no block with the directory's old chain:
/// the same chain, with the same content.
proof fn lemma_save_keeps_chain(
    f1: Seq<FATItem>,
    d1: Seq<u8>,
    f2: Seq<FATItem>,
    d2: Seq<u8>,
    df: usize,
    p: usize,
)
    requires
        d1.len() == f1.len() * BLOCK_SIZE,
        d2.len() == d1.len(),
        chain_of(f1, df) is Some,
        chain_of(f1, p) is Some,
        plain_chain(f1, chain_of(f1, p)->0),
        forall|i: int|
            0 <= i < chain_of(f1, p)->0.len() ==> !chain_of(f1, df)->0.contains(
                #[trigger] chain_of(f1, p)->0[i],
            ),
        f2.len() == f1.len(),
        chain_of(f2, df)->0[0] == df,
        forall|k: usize|
            k < f1.len() && !chain_of(f1, df)->0.contains(k) && !chain_of(f2, df)->0.contains(k)
                ==> #[trigger] f2[k as int] == f1[k as int],
        forall|a: int|
            1 <= a < chain_of(f2, df)->0.len() ==> f1[#[trigger] chain_of(f2, df)->0[a] as int]
                == FATItem::UnUsed || chain_of(f1, df)->0.contains(chain_of(f2, df)->0[a]),
        forall|k: int|
            0 <= k < d2.len() && !in_blocks(chain_of(f2, df)->0, k) ==> #[trigger] d2[k] == d1[k],
    ensures
        content_at(f2, d2, p) == content_at(f1, d1, p),
        chain_of(f2, p) == chain_of(f1, p),
        plain_chain(f2, chain_of(f2, p)->0),
{
    let cp = chain_of(f1, p)->0;
    let oc = chain_of(f1, df)->0;
    let nc = chain_of(f2, df)->0;
    lemma_chain_bounds(f1, df);
    lemma_chain_bounds(f1, p);
    assert forall|i: int| 0 <= i < cp.len() implies !nc.contains(#[trigger] cp[i]) by {
        if nc.contains(cp[i]) {
            let a = choose|a: int| 0 <= a < nc.len() && nc[a] == cp[i];
            if a == 0 {
                assert(oc[0] == df);
                assert(oc.contains(df));
            } else {
                assert(f1[nc[a] as int] == FATItem::UnUsed || oc.contains(nc[a]));
                assert(f1[cp[i] as int] is Cluster || f1[cp[i] as int] is EOF);
            }
        }
    }
    assert forall|i: int| 0 <= i < cp.len() implies f2[#[trigger] cp[i] as int] == f1[cp[i] as int] by {
        assert(!oc.contains(cp[i]) && !nc.contains(cp[i]));
    }
    assert forall|k: int| 0 <= k < d1.len() && in_blocks(cp, k) implies #[trigger] d2[k] == d1[k] by {
        let i = choose|i: int| 0 <= i < cp.len() && (#[trigger] cp[i]) * BLOCK_SIZE <= k < cp[i] * BLOCK_SIZE + BLOCK_SIZE;
        if in_blocks(nc, k) {
            let a = choose|a: int| 0 <= a < nc.len() && (#[trigger] nc[a]) * BLOCK_SIZE <= k < nc[a] * BLOCK_SIZE + BLOCK_SIZE;
            if nc[a] != cp[i] {
                crate::disk::lemma_blocks_disjoint(nc[a] as int, k - nc[a] * BLOCK_SIZE, cp[i] as int, k - cp[i] * BLOCK_SIZE);
            }
            assert(!nc.contains(cp[i]));
            assert(nc.contains(nc[a]));
        }
    }
    lemma_content_frame(f1, d1, f2, d2, p);
    lemma_chain_frame(f1, f2, p);
    assert forall|i: int| 0 <= i < cp.len() implies (#[trigger] f2[cp[i] as int] is Cluster || f2[cp[i] as int] is EOF) by {
        assert(f2[cp[i] as int] == f1[cp[i] as int]);
        assert(f1[cp[i] as int] is Cluster || f1[cp[i] as int] is EOF);
    }
}

/// A chain with no bad or free entries is left alone by an allocation: its
/// blocks were in use, so none of them was taken.
proof fn lemma_alloc_keeps_plain_chain(f0: Seq<FATItem>, f1: Seq<FATItem>, cp: Seq<usize>, df: usize)
    requires
        allocated(f0, f1, cp),
        chain_of(f0, df) is Some,
        plain_chain(f0, chain_of(f0, df)->0),
    ensures
        chain_of(f1, df) == chain_of(f0, df),
        plain_chain(f1, chain_of(f1, df)->0),
        forall|a: int| 0 <= a < chain_of(f0, df)->0.len() ==> !cp.contains(#[trigger] chain_of(f0, df)->0[a]),
{
    let dc = chain_of(f0, df)->0;
    lemma_allocated_outside(f0, f1, cp);
    lemma_chain_bounds(f0, df);
    assert forall|a: int| 0 <= a < dc.len() implies !cp.contains(#[trigger] dc[a]) by {
        if cp.contains(dc[a]) {
            let j = choose|j: int| 0 <= j < cp.len() && cp[j] == dc[a];
            assert(f0[cp[j] as int] == FATItem::UnUsed);
            assert(f0[dc[a] as int] is Cluster || f0[dc[a] as int] is EOF);
        }
    }
    assert forall|a: int| 0 <= a < dc.len() implies f1[#[trigger] dc[a] as int] == f0[dc[a] as int] by {
        assert(!cp.contains(dc[a]));
    }
    lemma_chain_frame(f0, f1, df);
    assert forall|a: int| 0 <= a < dc.len() implies (#[trigger] f1[dc[a] as int] is Cluster || f1[dc[a] as int] is EOF) by {
        assert(f1[dc[a] as int] == f0[dc[a] as int]);
        assert(f0[dc[a] as int] is Cluster || f0[dc[a] as int] is EOF);
    }
}

/// The volume: block store, allocation table and the working directory.
pub struct DiskOperator {
    pub disk: Disk,
    pub cur_dir: Directory,
}

impl DiskOperator {
    /// The block store matches its table, and the working directory has
    /// its own two entries in front.
    pub open spec fn wf(&self) -> bool {
        &&& self.disk.wf()
        &&& self.cur_dir@.files.len() >= 2
    }

    /// The allocation table.
    pub open spec fn fat(&self) -> Seq<FATItem> {
        self.disk.fat@
    }

    /// The lowest free block, if any.
    pub fn find_empty_block(&self) -> (r: Option<usize>)
        ensures
            match r {
                Some(i) => i < self.fat().len() && self.fat()[i as int] == FATItem::UnUsed
                    && forall|k: int| 0 <= k < i ==> #[trigger] self.fat()[k] != FATItem::UnUsed,
                None => count_free(self.fat()) == 0 && forall|k: int|
                    0 <= k < self.fat().len() ==> #[trigger] self.fat()[k] != FATItem::UnUsed,
            },
    {
        let mut i: usize = 0;
        while i < self.disk.fat.len()
            invariant
                i <= self.fat().len(),
                forall|k: int| 0 <= k < i ==> #[trigger] self.fat()[k] != FATItem::UnUsed,
            decreases self.fat().len() - i,
        {
            if self.disk.fat[i] == FATItem::UnUsed {
                return Some(i);
            }
            i = i + 1;
        }
        proof {
            lemma_count_free_none(self.fat());
        }
        None
    }

    /// Number of free blocks.
    fn count_free_blocks(&self) -> (r: usize)
        ensures
            r == count_free(self.fat()),
    {
        let mut n: usize = 0;
        let mut i: usize = 0;
        while i < self.disk.fat.len()
            invariant
                i <= self.fat().len(),
                n == count_free(self.fat().subrange(0, i as int)),
                n <= i,
            decreases self.fat().len() - i,
        {
            assert(self.fat().subrange(0, i + 1).drop_last() =~= self.fat().subrange(0, i as int));
            if self.disk.fat[i] == FATItem::UnUsed {
                n = n + 1;
            }
            i = i + 1;
        }
        assert(self.fat().subrange(0, i as int) =~= self.fat());
        n
    }

    /// Takes `cnumber` free blocks, lowest first, and links them into one
    /// chain. When fewer are free, nothing is taken.
    pub fn allocate_block(&mut self, cnumber: usize) -> (r: Result<Vec<usize>, FsError>)
        requires
            old(self).disk.wf(),
        ensures
            final(self).disk.wf(),
            final(self).disk.data@ == old(self).disk.data@,
            final(self).cur_dir == old(self).cur_dir,
            r is Err <==> count_free(old(self).fat()) < cnumber,
            r is Err ==> r == Err::<Vec<usize>, FsError>(FsError::OutOfSpace) && final(self).fat()
                == old(self).fat(),
            r is Ok ==> r->Ok_0@.len() == cnumber && allocated(old(self).fat(), final(self).fat(), r->Ok_0@),
    {
        let free = self.count_free_blocks();
        if free < cnumber {
            return Err(FsError::OutOfSpace);
        }
        let ghost start = self.fat();
        proof {
            lemma_count_free_le(start);
        }
        let mut clusters: Vec<usize> = Vec::new();
        let mut i: usize = 0;
        while i < cnumber
            invariant
                self.disk.wf(),
                self.disk.data@ == old(self).disk.data@,
                self.cur_dir == old(self).cur_dir,
                start == old(self).fat(),
                count_free(start) <= start.len(),
                cnumber <= count_free(start),
                i <= cnumber,
                clusters@.len() == i,
                self.fat().len() == start.len(),
                count_free(self.fat()) + i == count_free(start),
                increasing(clusters@),
                forall|m: int| 0 <= m < i ==> #[trigger] clusters@[m] < start.len() && start[clusters@[m] as int] == FATItem::UnUsed,
                forall|k: usize|
                    k < start.len() && start[k as int] == FATItem::UnUsed && i > 0 && k < clusters@.last()
                        ==> #[trigger] clusters@.contains(k),
                forall|m: int| 0 <= m < i - 1 ==> self.fat()[#[trigger] clusters@[m] as int] == FATItem::Cluster(clusters@[m + 1]),
                i > 0 ==> self.fat()[clusters@.last() as int] == FATItem::EOF,
                forall|k: usize| k < start.len() && !clusters@.contains(k) ==> #[trigger] self.fat()[k as int] == start[k as int],
            decreases cnumber - i,
        {
            let c: usize = match self.find_empty_block() {
                Some(c) => c,
                None => {
                    proof {
                        assert(false);
                    }
                    return Err(FsError::OutOfSpace);
                },
            };
            let ghost before = self.fat();
            let ghost cs = clusters@;
            proof {
                if cs.contains(c) {
                    let m = choose|m: int| 0 <= m < cs.len() && cs[m] == c;
                    if m < i - 1 {
                        assert(before[cs[m] as int] == FATItem::Cluster(cs[m + 1]));
                    }
                }
                assert(before[c as int] == start[c as int]);
                if i > 0 {
                    let last = cs.last();
                    if c < last {
                        assert(cs.contains(c));
                    }
                    assert(c != last);
                }
            }
            if i > 0 {
                let prev: usize = clusters[i - 1];
                self.disk.fat.set(prev, FATItem::Cluster(c));
                proof {
                    lemma_count_free_update(before, prev as int, FATItem::Cluster(c));
                }
            }
            let ghost mid = self.fat();
            self.disk.fat.set(c, FATItem::EOF);
            proof {
                assert(mid[c as int] == FATItem::UnUsed);
                lemma_count_free_update(mid, c as int, FATItem::EOF);
            }
            clusters.push(c);
            proof {
                let ncs = clusters@;
                assert(ncs.last() == c);
                assert forall|a: int, b: int| 0 <= a < b < ncs.len() implies ncs[a] < ncs[b] by {
                    if b == i {
                        assert(ncs[a] == cs[a]);
                        if a < i - 1 {
                            assert(cs[a] < cs[i - 1]);
                        }
                    } else {
                        assert(ncs[a] == cs[a] && ncs[b] == cs[b]);
                    }
                }
                assert forall|m: int| 0 <= m < i + 1 implies #[trigger] ncs[m] < start.len() && start[ncs[m] as int] == FATItem::UnUsed by {
                    if m < i {
                        assert(ncs[m] == cs[m]);
                    }
                }
                assert forall|k: usize| k < start.len() && start[k as int] == FATItem::UnUsed && k < ncs.last()
                    implies #[trigger] ncs.contains(k) by {
                    if i > 0 && k < cs.last() {
                        let m = choose|m: int| 0 <= m < cs.len() && cs[m] == k;
                        assert(ncs[m] == k);
                    } else if i > 0 && k == cs.last() {
                        assert(ncs[i - 1] == k);
                    } else {
                        if !cs.contains(k) {
                            assert(before[k as int] == start[k as int]);
                            assert(before[k as int] != FATItem::UnUsed);
                        } else {
                            let m = choose|m: int| 0 <= m < cs.len() && cs[m] == k;
                            assert(ncs[m] == k);
                        }
                    }
                }
                assert forall|m: int| 0 <= m < i implies self.fat()[#[trigger] ncs[m] as int] == FATItem::Cluster(ncs[m + 1]) by {
                    assert(ncs[m] == cs[m]);
                    assert(ncs[m] != c);
                    if m < i - 1 {
                        assert(ncs[m + 1] == cs[m + 1]);
                        assert(cs[m] != cs[i - 1]);
                    }
                }
                assert forall|k: usize| k < start.len() && !ncs.contains(k) implies #[trigger] self.fat()[k as int] == start[k as int] by {
                    if cs.contains(k) {
                        let m = choose|m: int| 0 <= m < cs.len() && cs[m] == k;
                        assert(ncs[m] == k);
                    }
                    assert(k != c) by {
                        assert(ncs[i as int] == c);
                    }
                    if i > 0 {
                        assert(ncs[i - 1] == cs[i - 1]);
                        assert(k != cs[i - 1]);
                    }
                }
            }
            i = i + 1;
        }
        proof {
            reveal(allocated);
        }
        Ok(clusters)
    }

    /// The blocks of the chain that starts at `start`, in chain order.
    pub fn get_series(&self, start: usize) -> (r: Result<Vec<usize>, FsError>)
        ensures
            match chain_of(self.fat(), start) {
                Some(cs) => r is Ok && r->Ok_0@ == cs,
                None => r == Err::<Vec<usize>, FsError>(FsError::CorruptChain),
            },
    {
        let n: usize = self.disk.fat.len();
        let mut clusters: Vec<usize> = Vec::new();
        clusters.push(start);
        let mut cur: usize = start;
        let mut fuel: usize = n;
        while fuel > 0
            invariant
                n == self.fat().len(),
                fuel <= n,
                clusters@.len() >= 1,
                clusters@[0] == start,
                walk(self.fat(), start as int, n as nat) == match walk(self.fat(), cur as int, fuel as nat) {
                    Some(rest) => Some(clusters@.drop_first() + rest),
                    None => None::<Seq<usize>>,
                },
            decreases fuel,
        {
            if cur >= n {
                return Err(FsError::CorruptChain);
            }
            match self.disk.fat[cur] {
                FATItem::Cluster(nx) => {
                    let ghost old_cs = clusters@;
                    clusters.push(nx);
                    proof {
                        match walk(self.fat(), nx as int, (fuel - 1) as nat) {
                            Some(rest) => {
                                assert(clusters@.drop_first() + rest =~= old_cs.drop_first() + (seq![nx] + rest));
                            },
                            None => {},
                        }
                    }
                    cur = nx;
                },
                FATItem::EOF => {
                    assert(clusters@ =~= seq![start] + clusters@.drop_first());
                    assert(clusters@.drop_first() + Seq::<usize>::empty() =~= clusters@.drop_first());
                    return Ok(clusters);
                },
                FATItem::BadCluster => {
                    cur = cur + 1;
                },
                FATItem::UnUsed => {
                    return Err(FsError::CorruptChain);
                },
            }
            fuel = fuel - 1;
        }
        Err(FsError::CorruptChain)
    }

    /// Frees every block of the chain that starts at `start` and gives the
    /// chain back. On failure the table is left as it was.
    pub fn delete_series(&mut self, start: usize) -> (r: Result<Vec<usize>, FsError>)
        requires
            old(self).disk.wf(),
        ensures
            final(self).disk.wf(),
            final(self).disk.data@ == old(self).disk.data@,
            final(self).cur_dir == old(self).cur_dir,
            match chain_of(old(self).fat(), start) {
                Some(cs) => r is Ok && r->Ok_0@ == cs && final(self).fat() == free_all(old(self).fat(), cs),
                None => r == Err::<Vec<usize>, FsError>(FsError::CorruptChain) && final(self).fat()
                    == old(self).fat(),
            },
    {
        let series = self.get_series(start)?;
        let ghost fat0 = self.fat();
        proof {
            lemma_chain_bounds(fat0, start);
        }
        let n: usize = self.disk.fat.len();
        let mut i: usize = 0;
        while i < series.len()
            invariant
                n == fat0.len(),
                self.disk.wf(),
                self.disk.data@ == old(self).disk.data@,
                self.cur_dir == old(self).cur_dir,
                fat0 == old(self).fat(),
                self.fat().len() == fat0.len(),
                i <= series@.len(),
                forall|k: int| 0 <= k < series@.len() ==> #[trigger] series@[k] < fat0.len(),
                forall|k: int|
                    0 <= k < fat0.len() ==> #[trigger] self.fat()[k] == if series@.subrange(0, i as int).contains(
                        k as usize,
                    ) {
                        FATItem::UnUsed
                    } else {
                        fat0[k]
                    },
            decreases series@.len() - i,
        {
            let c = series[i];
            self.disk.fat.set(c, FATItem::UnUsed);
            proof {
                let pre = series@.subrange(0, i as int);
                let post = series@.subrange(0, i + 1);
                assert forall|k: int| 0 <= k < fat0.len() implies #[trigger] self.fat()[k] == if post.contains(
                    k as usize,
                ) {
                    FATItem::UnUsed
                } else {
                    fat0[k]
                } by {
                    if pre.contains(k as usize) {
                        let j = choose|j: int| 0 <= j < pre.len() && pre[j] == k as usize;
                        assert(post[j] == k as usize);
                    }
                    if post.contains(k as usize) && k != c as int {
                        let j = choose|j: int| 0 <= j < post.len() && post[j] == k as usize;
                        assert(pre[j] == k as usize);
                    }
                    if k == c as int {
                        assert(post[i as int] == c);
                    }
                }
            }
            i = i + 1;
        }
        assert(series@.subrange(0, series@.len() as int) =~= series@);
        assert(self.fat() =~= free_all(fat0, series@));
        Ok(series)
    }

    /// Total blocks, blocks in use and free blocks; bad blocks count in
    /// neither of the last two.
    pub fn get_disk_info(&self) -> (r: (usize, usize, usize))
        ensures
            r.0 == self.fat().len(),
            r.1 == count_used(self.fat()),
            r.2 == count_free(self.fat()),
    {
        let disk_size = self.disk.fat.len();
        let mut used: usize = 0;
        let mut unused: usize = 0;
        let mut i: usize = 0;
        while i < disk_size
            invariant
                disk_size == self.fat().len(),
                i <= disk_size,
                used == count_used(self.fat().subrange(0, i as int)),
                unused == count_free(self.fat().subrange(0, i as int)),
                used + unused <= i,
            decreases disk_size - i,
        {
            assert(self.fat().subrange(0, i + 1).drop_last() =~= self.fat().subrange(0, i as int));
            match self.disk.fat[i] {
                FATItem::UnUsed => unused = unused + 1,
                FATItem::BadCluster => {},
                _ => used = used + 1,
            }
            i = i + 1;
        }
        assert(self.fat().subrange(0, i as int) =~= self.fat());
        (disk_size, used, unused)
    }

    /// Whether a payload of `len` bytes ends off a block boundary, and how
    /// many whole blocks it spans (`len` divided by the block size, rounded up).
    pub fn calculate_blocks_with_eof(len: usize) -> (r: (bool, usize))
        ensures
            r.0 == (len % BLOCK_SIZE != 0),
            r.1 == len / BLOCK_SIZE + if len % BLOCK_SIZE != 0 {
                1int
            } else {
                0int
            },
    {
        let eof = len % BLOCK_SIZE != 0;
        let number: usize = if eof {
            len / BLOCK_SIZE + 1
        } else {
            len / BLOCK_SIZE
        };
        (eof, number)
    }

    /// Stores `data` on a fresh chain and gives its first block. The last
    /// block carries the end marker unless the payload fills it exactly; an
    /// empty payload takes one block holding the marker alone.
    pub fn write_to_disk(&mut self, data: &[u8]) -> (r: Result<usize, FsError>)
        requires
            old(self).disk.wf(),
        ensures
            final(self).disk.wf(),
            final(self).cur_dir == old(self).cur_dir,
            r is Err <==> count_free(old(self).fat()) < blocks_for(data@.len()),
            r is Err ==> r == Err::<usize, FsError>(FsError::OutOfSpace) && final(self).fat()
                == old(self).fat() && final(self).disk.data@ == old(self).disk.data@,
            r is Ok ==> written(
                old(self).fat(),
                old(self).disk.data@,
                final(self).fat(),
                final(self).disk.data@,
                r->Ok_0,
                data@,
            ),
            r is Ok && readable_back(data@) ==> content_at(
                final(self).fat(),
                final(self).disk.data@,
                r->Ok_0,
            ) == Some(data@),
    {
        let (eof, blocks_number) = DiskOperator::calculate_blocks_with_eof(data.len());
        let (eof, blocks_number) = if blocks_number == 0 {
            (true, 1usize)
        } else {
            (eof, blocks_number)
        };
        assert(blocks_number == blocks_for(data@.len()));
        assert(eof == needs_marker(data@.len()));
        let clusters = self.allocate_block(blocks_number)?;
        let ghost fat1 = self.fat();
        let ghost data1 = self.disk.data@;
        let ghost cs = clusters@;
        proof {
            reveal(allocated);
            lemma_stored_image_len(data@);
            assert forall|i: int, j: int| 0 <= i < cs.len() && 0 <= j < cs.len() && i != j implies cs[i] != cs[j] by {
                if i < j {
                    assert(cs[i] < cs[j]);
                } else {
                    assert(cs[j] < cs[i]);
                }
            }
        }
        self.disk.write_in_clusters(data, clusters.as_slice(), eof);
        let first = clusters[0];
        proof {
            let img = stored_image(data@);
            let nd = self.disk.data@;
            assert forall|i: int| 0 <= i < cs.len() implies (#[trigger] cs[i]) * BLOCK_SIZE + BLOCK_SIZE <= nd.len() by {
                crate::disk::lemma_block_in_range(cs[i] as int, 0, fat1.len() as int);
            }
            crate::disk::lemma_blocks_concat(nd, cs, img);
            lemma_walk_linked(self.fat(), cs, 0, self.fat().len());
            assert(seq![first] + cs.subrange(1, cs.len() as int) =~= cs);
            assert(chain_of(self.fat(), first) == Some(cs));
            if readable_back(data@) {
                lemma_stored_content(data@);
            }
        }
        Ok(first)
    }

    /// The content stored on the chain that starts at `first_cluster`.
    pub fn get_data_by_first_cluster(&self, first_cluster: usize) -> (r: Result<Vec<u8>, FsError>)
        requires
            self.disk.wf(),
        ensures
            match content_at(self.fat(), self.disk.data@, first_cluster) {
                Some(c) => r is Ok && r->Ok_0@ == c && c.len() <= usize::MAX,
                None => r == Err::<Vec<u8>, FsError>(FsError::CorruptChain),
            },
    {
        let clusters = self.get_series(first_cluster)?;
        proof {
            lemma_chain_bounds(self.fat(), first_cluster);
        }
        let data_len: usize = self.disk.data.len();
        proof {
            let k = clusters@.len();
            assert(k * BLOCK_SIZE <= self.fat().len() * BLOCK_SIZE) by (nonlinear_arith)
                requires
                    k <= self.fat().len(),
            ;
        }
        let content = self.disk.read_in_clusters(clusters.as_slice());
        // The length of a vector fits in a `usize`.
        let len: usize = content.len();
        assert(content@.len() == len);
        Ok(content)
    }

    /// Loads the directory that entry `fcb` stands for.
    pub fn get_directory_by_fcb(&self, fcb: &Fcb) -> (r: Result<Directory, FsError>)
        requires
            self.disk.wf(),
        ensures
            fcb.file_type == FileType::File ==> r is Err && r->Err_0 == FsError::NotADirectory,
            fcb.file_type == FileType::Directory ==> loads(
                self.fat(),
                self.disk.data@,
                fcb.first_cluster,
                r,
            ),
            fcb.file_type == FileType::Directory && content_at(
                self.fat(),
                self.disk.data@,
                fcb.first_cluster,
            ) is Some ==> content_at(self.fat(), self.disk.data@, fcb.first_cluster)->0.len()
                <= usize::MAX,
    {
        match fcb.file_type {
            FileType::Directory => {
                let data = self.get_data_by_first_cluster(fcb.first_cluster)?;
                decode_directory(data.as_slice())
            },
            FileType::File => Err(FsError::NotADirectory),
        }
    }

    /// The content of the file that entry `fcb` stands for.
    pub fn get_file_by_fcb(&self, fcb: &Fcb) -> (r: Result<Vec<u8>, FsError>)
        requires
            self.disk.wf(),
        ensures
            fcb.file_type == FileType::Directory ==> r is Err && r->Err_0 == FsError::NotAFile,
            fcb.file_type == FileType::File ==> match content_at(
                self.fat(),
                self.disk.data@,
                fcb.first_cluster,
            ) {
                Some(c) => r is Ok && r->Ok_0@ == c,
                None => r is Err && r->Err_0 == FsError::CorruptChain,
            },
    {
        match fcb.file_type {
            FileType::File => self.get_data_by_first_cluster(fcb.first_cluster),
            FileType::Directory => Err(FsError::NotAFile),
        }
    }

    /// The content of the file called `name` in the working directory.
    pub fn read_file_by_name(&self, name: &str) -> (r: Result<Vec<u8>, FsError>)
        requires
            self.wf(),
        ensures
            match find_index(self.cur_dir@.files, name@) {
                None => r is Err && r->Err_0 == FsError::NotFound,
                Some(i) => {
                    let f = self.cur_dir@.files[i];
                    &&& f.file_type == FileType::Directory ==> r is Err && r->Err_0
                        == FsError::NotAFile
                    &&& f.file_type == FileType::File ==> match content_at(
                        self.fat(),
                        self.disk.data@,
                        f.first_cluster,
                    ) {
                        Some(c) => r is Ok && r->Ok_0@ == c,
                        None => r is Err && r->Err_0 == FsError::CorruptChain,
                    }
                },
            },
    {
        match self.cur_dir.get_fcb(name) {
            Some((_, fcb)) => self.get_file_by_fcb(fcb),
            None => Err(FsError::NotFound),
        }
    }

    /// Creates the file `name` holding `data` in the working directory, and
    /// adds its length to the directory's own entry.
    pub fn new_file(&mut self, name: &str, data: &[u8]) -> (r: Result<(), FsError>)
        requires
            old(self).wf(),
        ensures
            final(self).wf(),
            find_index(old(self).cur_dir@.files, name@) is Some ==> r is Err && r->Err_0
                == FsError::AlreadyExists,
            find_index(old(self).cur_dir@.files, name@) is None && count_free(old(self).fat())
                < blocks_for(data@.len()) ==> r is Err && r->Err_0 == FsError::OutOfSpace,
            r is Err ==> final(self).fat() == old(self).fat() && final(self).disk.data@ == old(
                self,
            ).disk.data@ && final(self).cur_dir@ == old(self).cur_dir@,
            find_index(old(self).cur_dir@.files, name@) is None && count_free(old(self).fat())
                >= blocks_for(data@.len()) ==> r is Ok,
            r is Ok ==> {
                let f = final(self).cur_dir@.files.last();
                &&& final(self).cur_dir@.name == old(self).cur_dir@.name
                &&& final(self).cur_dir@.files == with_self_length(
                    old(self).cur_dir@.files,
                    sat_add(old(self).cur_dir@.files[0].length, data@.len()),
                ).push(
                    FcbModel {
                        name: name@,
                        file_type: FileType::File,
                        first_cluster: f.first_cluster,
                        length: data@.len() as usize,
                    },
                )
                &&& written(
                    old(self).fat(),
                    old(self).disk.data@,
                    final(self).fat(),
                    final(self).disk.data@,
                    f.first_cluster,
                    data@,
                )
            },
    {
        if self.cur_dir.get_fcb(name).is_some() {
            return Err(FsError::AlreadyExists);
        }
        let first_cluster = self.write_to_disk(data)?;
        let new_file_fcb = Fcb {
            name: name.to_owned(),
            file_type: FileType::File,
            first_cluster,
            length: data.len(),
        };
        let old_self = self.cur_dir.files[0].duplicate();
        let add_length = data.len();
        let length: usize = if old_self.length > usize::MAX - add_length {
            usize::MAX
        } else {
            old_self.length + add_length
        };
        let ghost files0 = self.cur_dir@.files;
        self.cur_dir.files.set(
            0,
            Fcb {
                name: old_self.name,
                file_type: old_self.file_type,
                first_cluster: old_self.first_cluster,
                length,
            },
        );
        self.cur_dir.files.push(new_file_fcb);
        proof {
            assert(self.cur_dir@.files =~= with_self_length(files0, length).push(
                self.cur_dir@.files.last(),
            ));
        }
        Ok(())
    }

    /// Renames the entry `old_name` of the working directory to `new_name`.
    pub fn rename_file(&mut self, old_name: &str, new_name: &str) -> (r: Result<(), FsError>)
        requires
            old(self).wf(),
        ensures
            final(self).wf(),
            final(self).disk == old(self).disk,
            find_index(old(self).cur_dir@.files, old_name@) is None ==> r is Err && r->Err_0
                == FsError::NotFound && final(self).cur_dir@ == old(self).cur_dir@,
            find_index(old(self).cur_dir@.files, old_name@) is Some && find_index(
                old(self).cur_dir@.files,
                new_name@,
            ) is Some ==> r is Err && r->Err_0 == FsError::AlreadyExists && final(self).cur_dir@
                == old(self).cur_dir@,
            find_index(old(self).cur_dir@.files, old_name@) is Some && find_index(
                old(self).cur_dir@.files,
                new_name@,
            ) is None ==> {
                let i = find_index(old(self).cur_dir@.files, old_name@)->0;
                let f = old(self).cur_dir@.files[i];
                &&& r is Ok
                &&& final(self).cur_dir@.name == old(self).cur_dir@.name
                &&& final(self).cur_dir@.files == old(self).cur_dir@.files.update(
                    i,
                    FcbModel {
                        name: new_name@,
                        file_type: f.file_type,
                        first_cluster: f.first_cluster,
                        length: f.length,
                    },
                )
            },
    {
        proof {
            lemma_find_index(self.cur_dir@.files, old_name@);
        }
        let index = match self.cur_dir.get_fcb(old_name) {
            Some((index, _)) => index,
            None => return Err(FsError::NotFound),
        };
        if self.cur_dir.get_fcb(new_name).is_some() {
            return Err(FsError::AlreadyExists);
        }
        let f = self.cur_dir.files[index].duplicate();
        let ghost files0 = self.cur_dir@.files;
        self.cur_dir.files.set(
            index,
            Fcb {
                name: new_name.to_owned(),
                file_type: f.file_type,
                first_cluster: f.first_cluster,
                length: f.length,
            },
        );
        proof {
            assert(self.cur_dir@.files =~= files0.update(
                index as int,
                FcbModel {
                    name: new_name@,
                    file_type: f@.file_type,
                    first_cluster: f@.first_cluster,
                    length: f@.length,
                },
            ));
        }
        Ok(())
    }

    /// Deletes the entry `name` of the working directory and frees its
    /// chain. A directory must hold only its own two entries. A file's length
    /// is taken off the directory's own entry.
    pub fn delete_file_by_name(&mut self, name: &str) -> (r: Result<(), FsError>)
        requires
            old(self).wf(),
        ensures
            final(self).wf(),
            r is Err ==> final(self).fat() == old(self).fat() && final(self).disk.data@ == old(
                self,
            ).disk.data@ && final(self).cur_dir@ == old(self).cur_dir@,
            match find_index(old(self).cur_dir@.files, name@) {
                None => r is Err && r->Err_0 == FsError::NotFound,
                Some(i) => {
                    let f = old(self).cur_dir@.files[i];
                    let fat = old(self).fat();
                    let data = old(self).disk.data@;
                    &&& i < 2 ==> r is Err && r->Err_0 == FsError::Reserved
                    &&& i >= 2 && f.file_type == FileType::Directory && content_at(
                        fat,
                        data,
                        f.first_cluster,
                    ) is None ==> r is Err && r->Err_0 == FsError::CorruptChain
                    &&& i >= 2 && f.file_type == FileType::Directory && content_at(
                        fat,
                        data,
                        f.first_cluster,
                    ) is Some && (forall|d: DirModel| #[trigger] dir_bytes(d) != content_at(
                        fat,
                        data,
                        f.first_cluster,
                    )->0) ==> r is Err && r->Err_0 == FsError::CorruptDirectory
                    &&& i >= 2 && f.file_type == FileType::Directory && content_at(
                        fat,
                        data,
                        f.first_cluster,
                    ) is Some && (exists|d: DirModel|
                        #[trigger] dir_bytes(d) == content_at(fat, data, f.first_cluster)->0
                            && d.files.len() != 2) ==> r is Err && r->Err_0 == FsError::NotEmpty
                    &&& i >= 2 && f.file_type == FileType::File && chain_of(
                        fat,
                        f.first_cluster,
                    ) is None ==> r is Err && r->Err_0 == FsError::CorruptChain
                    &&& r is Ok <==> i >= 2 && (f.file_type == FileType::File && chain_of(
                        fat,
                        f.first_cluster,
                    ) is Some || f.file_type == FileType::Directory && empty_dir_at(
                        fat,
                        data,
                        f.first_cluster,
                    ))
                    &&& r is Ok ==> {
                        &&& final(self).fat() == free_all(fat, chain_of(fat, f.first_cluster)->0)
                        &&& final(self).disk.data@ == data
                        &&& final(self).cur_dir@.name == old(self).cur_dir@.name
                        &&& final(self).cur_dir@.files == (if f.file_type == FileType::File {
                            with_self_length(
                                old(self).cur_dir@.files,
                                sat_sub(old(self).cur_dir@.files[0].length, f.length),
                            )
                        } else {
                            old(self).cur_dir@.files
                        }).remove(i)
                    }
                },
            },
    {
        proof {
            lemma_find_index(self.cur_dir@.files, name@);
        }
        let index = match self.cur_dir.get_fcb(name) {
            Some((index, _)) => index,
            None => return Err(FsError::NotFound),
        };
        if index < 2 {
            return Err(FsError::Reserved);
        }
        let fcb = self.cur_dir.files[index].duplicate();
        assert(self.cur_dir@.files[index as int] == self.cur_dir.files@[index as int]@);
        assert(find_index(self.cur_dir@.files, name@) == Some(index as int));
        let ghost fat = self.fat();
        let ghost data = self.disk.data@;
        if let FileType::Directory = fcb.file_type {
            let dir = match self.get_directory_by_fcb(&fcb) {
                Ok(dir) => dir,
                Err(e) => {
                    proof {
                        if content_at(fat, data, fcb.first_cluster) is Some {
                            let c = content_at(fat, data, fcb.first_cluster)->0;
                            assert(forall|d: DirModel| #[trigger] dir_bytes(d) != c);
                        }
                    }
                    return Err(e);
                },
            };
            proof {
                let c = content_at(fat, data, fcb.first_cluster)->0;
                assert(dir_bytes(dir@) == c);
                assert forall|d: DirModel| #[trigger] dir_bytes(d) == c implies d == dir@ by {
                    lemma_dir_bytes_injective(dir@, d);
                }
            }
            if dir.files.len() != 2 {
                return Err(FsError::NotEmpty);
            }
        }
        let ghost files0 = self.cur_dir@.files;
        self.delete_series(fcb.first_cluster)?;
        if let FileType::File = fcb.file_type {
            let own = self.cur_dir.files[0].duplicate();
            let length: usize = if own.length < fcb.length {
                0
            } else {
                own.length - fcb.length
            };
            self.cur_dir.files.set(
                0,
                Fcb {
                    name: own.name,
                    file_type: own.file_type,
                    first_cluster: own.first_cluster,
                    length,
                },
            );
            assert(self.cur_dir@.files =~= with_self_length(files0, length));
        }
        let ghost files1 = self.cur_dir@.files;
        self.cur_dir.files.remove(index);
        assert(self.cur_dir@.files =~= files1.remove(index as int));
        Ok(())
    }

    /// Writes the stored image of `bytes` over the chain `cs`, which the
    /// table already links from `cs[0]` to an end.
    fn store_on_chain(&mut self, bytes: &[u8], cs: &[usize])
        requires
            old(self).disk.wf(),
            cs@.len() == blocks_for(bytes@.len()),
            valid_clusters(cs@, old(self).fat().len()),
            cs@.len() <= old(self).fat().len(),
            forall|a: int| 0 <= a < cs@.len() - 1 ==> old(self).fat()[#[trigger] cs@[a] as int]
                == FATItem::Cluster(cs@[a + 1]),
            old(self).fat()[cs@.last() as int] == FATItem::EOF,
        ensures
            final(self).disk.wf(),
            final(self).cur_dir == old(self).cur_dir,
            final(self).fat() == old(self).fat(),
            holds(final(self).fat(), final(self).disk.data@, cs@[0], bytes@),
            chain_of(final(self).fat(), cs@[0]) == Some(cs@),
            readable_back(bytes@) ==> content_at(final(self).fat(), final(self).disk.data@, cs@[0])
                == Some(bytes@),
            forall|k: int|
                0 <= k < final(self).disk.data@.len() && !in_blocks(cs@, k)
                    ==> #[trigger] final(self).disk.data@[k] == old(self).disk.data@[k],
    {
        let (eof, n) = DiskOperator::calculate_blocks_with_eof(bytes.len());
        let eof = if n == 0 {
            true
        } else {
            eof
        };
        assert(eof == needs_marker(bytes@.len()));
        proof {
            lemma_stored_image_len(bytes@);
        }
        self.disk.write_in_clusters(bytes, cs, eof);
        proof {
            let img = stored_image(bytes@);
            let nd = self.disk.data@;
            assert forall|a: int| 0 <= a < cs@.len() implies (#[trigger] cs@[a]) * BLOCK_SIZE + BLOCK_SIZE
                <= nd.len() by {
                crate::disk::lemma_block_in_range(cs@[a] as int, 0, self.fat().len() as int);
            }
            crate::disk::lemma_blocks_concat(nd, cs@, img);
            lemma_walk_linked(self.fat(), cs@, 0, self.fat().len());
            assert(seq![cs@[0]] + cs@.subrange(1, cs@.len() as int) =~= cs@);
            if readable_back(bytes@) {
                lemma_stored_content(bytes@);
            }
        }
    }

    /// Takes block `first` and `n - 1` free blocks, lowest first, and links
    /// them into one chain that starts at `first`.
    fn reserve_chain(&mut self, first: usize, n: usize) -> (r: Result<Vec<usize>, FsError>)
        requires
            old(self).disk.wf(),
            first < old(self).fat().len(),
            n >= 1,
        ensures
            final(self).disk.wf(),
            final(self).cur_dir == old(self).cur_dir,
            final(self).disk.data@ == old(self).disk.data@,
            r is Err ==> r->Err_0 == FsError::OutOfSpace,
            r is Ok ==> {
                let cs = r->Ok_0@;
                &&& cs.len() == n
                &&& cs[0] == first
                &&& valid_clusters(cs, final(self).fat().len())
                &&& cs.len() <= final(self).fat().len()
                &&& forall|a: int| 0 <= a < cs.len() - 1 ==> final(self).fat()[#[trigger] cs[a] as int]
                    == FATItem::Cluster(cs[a + 1])
                &&& final(self).fat()[cs.last() as int] == FATItem::EOF
                &&& forall|k: usize| k < old(self).fat().len() && !cs.contains(k)
                    ==> #[trigger] final(self).fat()[k as int] == old(self).fat()[k as int]
                &&& forall|a: int| 1 <= a < cs.len() ==> old(self).fat()[#[trigger] cs[a] as int]
                    == FATItem::UnUsed
                &&& old(self).fat()[first as int] == FATItem::UnUsed ==> count_free(final(self).fat()) + n
                    == count_free(old(self).fat())
            },
            old(self).fat()[first as int] == FATItem::UnUsed ==> (r is Err <==> count_free(
                old(self).fat(),
            ) < n),
    {
        let ghost fat0 = self.fat();
        self.disk.fat.set(first, FATItem::EOF);
        let ghost mid = self.fat();
        proof {
            if fat0[first as int] == FATItem::UnUsed {
                lemma_count_free_update(fat0, first as int, FATItem::EOF);
            }
        }
        let rest = self.allocate_block(n - 1)?;
        let ghost rs = rest@;
        let ghost after = self.fat();
        if n > 1 {
            self.disk.fat.set(first, FATItem::Cluster(rest[0]));
        }
        let mut clusters = rest;
        clusters.insert(0, first);
        proof {
            assert(clusters@ =~= seq![first] + rs);
            lemma_reserved_chain(mid, after, self.fat(), first, rs, clusters@);
            lemma_reserved_frame(fat0, mid, after, self.fat(), first, rs, clusters@);
            if fat0[first as int] == FATItem::UnUsed {
                lemma_reserved_count(fat0, mid, after, self.fat(), first, rs);
            }
        }
        Ok(clusters)
    }

    /// Writes `dir` back to disk on a chain that starts at its own first
    /// block (the one its own entry names). The old chain is freed first; if
    /// the new one then finds too few free blocks, the old one stays freed.
    pub fn save_dir_to_disk(&mut self, dir: &Directory) -> (r: Result<(), FsError>)
        requires
            old(self).disk.wf(),
            dir@.files.len() >= 1,
        ensures
            final(self).disk.wf(),
            final(self).cur_dir == old(self).cur_dir,
            chain_of(old(self).fat(), dir@.files[0].first_cluster) is None ==> r is Err && r->Err_0
                == FsError::CorruptChain && final(self).fat() == old(self).fat()
                && final(self).disk.data@ == old(self).disk.data@,
            r is Err ==> r->Err_0 == FsError::CorruptChain || r->Err_0 == FsError::OutOfSpace,
            r is Ok ==> holds(
                final(self).fat(),
                final(self).disk.data@,
                dir@.files[0].first_cluster,
                dir_bytes(dir@),
            ),
            r is Ok && readable_back(dir_bytes(dir@)) ==> content_at(
                final(self).fat(),
                final(self).disk.data@,
                dir@.files[0].first_cluster,
            ) == Some(dir_bytes(dir@)),
            chain_of(old(self).fat(), dir@.files[0].first_cluster) is Some && count_free(
                free_all(old(self).fat(), chain_of(old(self).fat(), dir@.files[0].first_cluster)->0),
            ) >= blocks_for(dir_bytes(dir@).len()) ==> r is Ok,
            r is Ok ==> count_free(final(self).fat()) + blocks_for(dir_bytes(dir@).len()) == count_free(
                free_all(old(self).fat(), chain_of(old(self).fat(), dir@.files[0].first_cluster)->0),
            ),
            r is Ok ==> {
                let first = dir@.files[0].first_cluster;
                let oc = chain_of(old(self).fat(), first)->0;
                let nc = chain_of(final(self).fat(), first)->0;
                &&& chain_of(old(self).fat(), first) is Some
                &&& final(self).fat().len() == old(self).fat().len()
                &&& nc[0] == first
                &&& forall|k: usize|
                    k < old(self).fat().len() && !oc.contains(k) && !nc.contains(k)
                        ==> #[trigger] final(self).fat()[k as int] == old(self).fat()[k as int]
                &&& forall|a: int|
                    1 <= a < nc.len() ==> old(self).fat()[#[trigger] nc[a] as int] == FATItem::UnUsed
                        || oc.contains(nc[a])
                &&& forall|k: int|
                    0 <= k < final(self).disk.data@.len() && !in_blocks(nc, k)
                        ==> #[trigger] final(self).disk.data@[k] == old(self).disk.data@[k]
            },
    {
        let bytes = encode_directory(dir);
        assert(dir@.files[0] == dir.files@[0]@);
        let first = dir.files[0].first_cluster;
        let ghost fat0 = self.fat();
        let old_chain = self.delete_series(first)?;
        proof {
            lemma_chain_bounds(old(self).fat(), first);
            assert(old_chain@[0] == first);
            assert(old_chain@.contains(first));
            assert(self.fat()[first as int] == FATItem::UnUsed);
        }
        let (eof, n) = DiskOperator::calculate_blocks_with_eof(bytes.len());
        let (eof, n) = if n == 0 {
            (true, 1usize)
        } else {
            (eof, n)
        };
        assert(n == blocks_for(bytes@.len()));
        assert(eof == needs_marker(bytes@.len()));
        let ghost fat1 = self.fat();
        let clusters = self.reserve_chain(first, n)?;
        let ghost fat2 = self.fat();
        proof {
            let oc = old_chain@;
            assert forall|k: usize| k < fat0.len() && !oc.contains(k) && !clusters@.contains(k)
                implies #[trigger] fat2[k as int] == fat0[k as int] by {
                assert(fat2[k as int] == fat1[k as int]);
            }
            assert forall|a: int| 1 <= a < clusters@.len() implies fat0[#[trigger] clusters@[a] as int]
                == FATItem::UnUsed || oc.contains(clusters@[a]) by {
                assert(fat1[clusters@[a] as int] == FATItem::UnUsed);
            }
        }
        self.store_on_chain(bytes.as_slice(), clusters.as_slice());
        Ok(())
    }

    /// Writes the working directory back to disk.
    pub fn persist(&mut self) -> (r: Result<(), FsError>)
        requires
            old(self).wf(),
        ensures
            final(self).wf(),
            final(self).cur_dir == old(self).cur_dir,
            r is Ok ==> holds(
                final(self).fat(),
                final(self).disk.data@,
                old(self).cur_dir@.files[0].first_cluster,
                dir_bytes(old(self).cur_dir@),
            ),
            chain_of(old(self).fat(), old(self).cur_dir@.files[0].first_cluster) is None ==> r is Err
                && r->Err_0 == FsError::CorruptChain,
            chain_of(old(self).fat(), old(self).cur_dir@.files[0].first_cluster) is Some && count_free(
                free_all(
                    old(self).fat(),
                    chain_of(old(self).fat(), old(self).cur_dir@.files[0].first_cluster)->0,
                ),
            ) >= blocks_for(dir_bytes(old(self).cur_dir@).len()) ==> r is Ok,
    {
        let dir = self.cur_dir.duplicate();
        self.save_dir_to_disk(&dir)
    }

    /// Creates the directory `name` in the working directory: a new
    /// directory with its own two entries is stored, and an entry for it is
    /// added. The working directory itself is written back later.
    pub fn new_directory(&mut self, name: &str) -> (r: Result<(), FsError>)
        requires
            old(self).wf(),
        ensures
            final(self).wf(),
            r is Err ==> final(self).fat() == old(self).fat() && final(self).disk.data@ == old(
                self,
            ).disk.data@ && final(self).cur_dir@ == old(self).cur_dir@,
            find_index(old(self).cur_dir@.files, name@) is Some ==> r is Err && r->Err_0
                == FsError::AlreadyExists,
            find_index(old(self).cur_dir@.files, name@) is None ==> (r is Ok <==> count_free(
                old(self).fat(),
            ) >= blocks_for(
                dir_bytes(
                    DirModel {
                        name: name@,
                        files: own_entries(0, old(self).cur_dir@.files[0].first_cluster),
                    },
                ).len(),
            )),
            r is Err && find_index(old(self).cur_dir@.files, name@) is None ==> r->Err_0
                == FsError::OutOfSpace,
            r is Ok ==> {
                let f = final(self).cur_dir@.files.last();
                let parent = old(self).cur_dir@.files[0].first_cluster;
                &&& final(self).cur_dir@.name == old(self).cur_dir@.name
                &&& final(self).cur_dir@.files == old(self).cur_dir@.files.push(
                    FcbModel {
                        name: name@,
                        file_type: FileType::Directory,
                        first_cluster: f.first_cluster,
                        length: 0,
                    },
                )
                &&& written(
                    old(self).fat(),
                    old(self).disk.data@,
                    final(self).fat(),
                    final(self).disk.data@,
                    f.first_cluster,
                    dir_bytes(DirModel { name: name@, files: own_entries(f.first_cluster, parent) }),
                )
            },
    {
        if self.cur_dir.get_fcb(name).is_some() {
            return Err(FsError::AlreadyExists);
        }
        let parent = self.cur_dir.files[0].first_cluster;
        assert(self.cur_dir@.files[0] == self.cur_dir.files@[0]@);
        let ghost m0 = DirModel { name: name@, files: own_entries(0, parent) };
        let me = match self.find_empty_block() {
            Some(b) => b,
            None => {
                proof {
                    let k = m0.files.len();
                    lemma_stored_image_len(dir_bytes(m0));
                }
                return Err(FsError::OutOfSpace);
            },
        };
        let mut new_dir = Directory::new(name);
        new_dir.files.push(
            Fcb {
                name: ".".to_owned(),
                file_type: FileType::Directory,
                first_cluster: me,
                length: 0,
            },
        );
        new_dir.files.push(
            Fcb {
                name: "..".to_owned(),
                file_type: FileType::Directory,
                first_cluster: parent,
                length: 0,
            },
        );
        assert(new_dir@.files =~= own_entries(me, parent));
        proof {
            lemma_two_entry_len(name@, own_entries(me, parent), own_entries(0, parent));
        }
        let bin_dir = encode_directory(&new_dir);
        let ghost fat0 = self.fat();
        let first_cluster = self.write_to_disk(bin_dir.as_slice())?;
        proof {
            let cs = chain_of(self.fat(), first_cluster)->0;
            assert(cs[0] == first_cluster);
            lemma_allocation_starts_lowest(fat0, self.fat(), cs, me);
        }
        let ghost files0 = self.cur_dir@.files;
        self.cur_dir.files.push(
            Fcb {
                name: name.to_owned(),
                file_type: FileType::Directory,
                first_cluster,
                length: 0,
            },
        );
        assert(self.cur_dir@.files =~= files0.push(self.cur_dir@.files.last()));
        Ok(())
    }

    /// A fresh volume whose root directory, `root_dir` or else an empty
    /// `root`, is stored from block 0 on.
    pub fn new(root_dir: Option<Directory>) -> (r: Result<DiskOperator, FsError>)
        ensures
            root_dir is None ==> r is Ok,
            root_dir is Some && root_dir->0@.files.len() >= 2 && blocks_for(
                dir_bytes(root_dir->0@).len(),
            ) <= BLOCK_COUNT ==> r is Ok,
            root_dir is Some && root_dir->0@.files.len() < 2 ==> r is Err && r->Err_0
                == FsError::CorruptDirectory,
            r is Err ==> r->Err_0 == FsError::CorruptDirectory || r->Err_0 == FsError::OutOfSpace,
            r is Ok ==> {
                let v = r->Ok_0;
                &&& v.wf()
                &&& v.fat().len() == BLOCK_COUNT
                &&& v.cur_dir@ == match root_dir {
                    Some(d) => d@,
                    None => default_root(),
                }
                &&& written(
                    fresh_fat(BLOCK_COUNT as nat),
                    crate::disk::zeros((BLOCK_COUNT * BLOCK_SIZE) as nat),
                    v.fat(),
                    v.disk.data@,
                    0,
                    dir_bytes(v.cur_dir@),
                )
            },
    {
        let disk = Disk::new();
        let cur_dir = match root_dir {
            Some(directory) => directory,
            None => {
                let mut files: Vec<Fcb> = Vec::new();
                files.push(
                    Fcb {
                        name: ".".to_owned(),
                        file_type: FileType::Directory,
                        first_cluster: 0,
                        length: 0,
                    },
                );
                files.push(
                    Fcb {
                        name: "..".to_owned(),
                        file_type: FileType::Directory,
                        first_cluster: 0,
                        length: 0,
                    },
                );
                let d = Directory { name: "root".to_owned(), files };
                assert(d@.files =~= own_entries(0, 0));
                d
            },
        };
        if cur_dir.files.len() < 2 {
            return Err(FsError::CorruptDirectory);
        }
        let mut op = DiskOperator { disk, cur_dir };
        proof {
            assert(op.fat() =~= fresh_fat(BLOCK_COUNT as nat));
            assert(op.disk.data@ =~= crate::disk::zeros((BLOCK_COUNT * BLOCK_SIZE) as nat));
            lemma_count_free_all(op.fat());
        }
        let bytes = encode_directory(&op.cur_dir);
        let ghost fat0 = op.fat();
        proof {
            if root_dir is None {
                lemma_default_root_len();
            }
        }
        let first = op.write_to_disk(bytes.as_slice())?;
        proof {
            let cs = chain_of(op.fat(), first)->0;
            assert(cs[0] == first);
            lemma_allocation_starts_lowest(fat0, op.fat(), cs, 0);
        }
        Ok(op)
    }

    /// Writes the working directory back to disk, then makes the directory
    /// `name` of it the working directory. Going to `..` carries the size
    /// recorded in the working directory's own entry over to its entry in the
    /// parent.
    pub fn set_current_dir(&mut self, name: &str) -> (r: Result<(), FsError>)
        requires
            old(self).wf(),
        ensures
            final(self).wf(),
            r is Err ==> final(self).cur_dir@ == old(self).cur_dir@,
            find_index(old(self).cur_dir@.files, name@) is None ==> r is Err && r->Err_0
                == FsError::NotFound && final(self).fat() == old(self).fat()
                && final(self).disk.data@ == old(self).disk.data@,
            find_index(old(self).cur_dir@.files, name@) is Some && old(self).cur_dir@.files[find_index(
                old(self).cur_dir@.files,
                name@,
            )->0].file_type == FileType::File ==> r is Err && r->Err_0 == FsError::NotADirectory
                && final(self).fat() == old(self).fat() && final(self).disk.data@ == old(
                self,
            ).disk.data@,
            r is Ok && readable_back(dir_bytes(old(self).cur_dir@)) ==> content_at(
                final(self).fat(),
                final(self).disk.data@,
                old(self).cur_dir@.files[0].first_cluster,
            ) == Some(dir_bytes(old(self).cur_dir@)),
            ({
                let fat = old(self).fat();
                let data = old(self).disk.data@;
                let cf = old(self).cur_dir@.files[0].first_cluster;
                let cc = chain_of(fat, cf)->0;
                let f = old(self).cur_dir@.files[find_index(old(self).cur_dir@.files, name@)->0];
                let fc = chain_of(fat, f.first_cluster)->0;
                &&& find_index(old(self).cur_dir@.files, name@) is Some
                &&& f.file_type == FileType::Directory
                &&& chain_of(fat, cf) is Some
                &&& count_free(free_all(fat, cc)) >= blocks_for(dir_bytes(old(self).cur_dir@).len())
                &&& chain_of(fat, f.first_cluster) is Some
                &&& plain_chain(fat, fc)
                &&& forall|a: int| 0 <= a < fc.len() ==> !cc.contains(#[trigger] fc[a])
                &&& exists|d: DirModel|
                    #[trigger] dir_bytes(d) == content_at(fat, data, f.first_cluster)->0 && d.files.len()
                        >= 2
            }) ==> r is Ok && content_at(
                final(self).fat(),
                final(self).disk.data@,
                old(self).cur_dir@.files[find_index(old(self).cur_dir@.files, name@)->0].first_cluster,
            ) == content_at(
                old(self).fat(),
                old(self).disk.data@,
                old(self).cur_dir@.files[find_index(old(self).cur_dir@.files, name@)->0].first_cluster,
            ),
            r is Ok ==> {
                let f = old(self).cur_dir@.files[find_index(old(self).cur_dir@.files, name@)->0];
                let c = content_at(final(self).fat(), final(self).disk.data@, f.first_cluster);
                &&& find_index(old(self).cur_dir@.files, name@) is Some
                &&& f.file_type == FileType::Directory
                &&& holds(
                    final(self).fat(),
                    final(self).disk.data@,
                    old(self).cur_dir@.files[0].first_cluster,
                    dir_bytes(old(self).cur_dir@),
                )
                &&& c is Some
                &&& exists|d: DirModel|
                    #[trigger] dir_bytes(d) == c->0 && final(self).cur_dir@ == if name@ == ".."@ {
                        with_child_length(
                            d,
                            old(self).cur_dir@.name,
                            old(self).cur_dir@.files[0].length,
                        )
                    } else {
                        d
                    }
            },
    {
        proof {
            lemma_find_index(self.cur_dir@.files, name@);
        }
        let index = match self.cur_dir.get_fcb(name) {
            Some((index, _)) => index,
            None => return Err(FsError::NotFound),
        };
        let fcb = self.cur_dir.files[index].duplicate();
        assert(self.cur_dir@.files[index as int] == self.cur_dir.files@[index as int]@);
        if let FileType::File = fcb.file_type {
            return Err(FsError::NotADirectory);
        }
        let ghost old_dir = self.cur_dir@;
        let ghost f0 = self.fat();
        let ghost d0 = self.disk.data@;
        let ghost cf = self.cur_dir@.files[0].first_cluster;
        let here = self.cur_dir.duplicate();
        self.save_dir_to_disk(&here)?;
        let ghost good = {
            let cc = chain_of(f0, cf)->0;
            let fc = chain_of(f0, fcb.first_cluster)->0;
            &&& chain_of(f0, fcb.first_cluster) is Some
            &&& plain_chain(f0, fc)
            &&& (forall|a: int| 0 <= a < fc.len() ==> !cc.contains(#[trigger] fc[a]))
            &&& exists|d: DirModel|
                #[trigger] dir_bytes(d) == content_at(f0, d0, fcb.first_cluster)->0 && d.files.len() >= 2
        };
        proof {
            if good {
                lemma_save_keeps_chain(f0, d0, self.fat(), self.disk.data@, cf, fcb.first_cluster);
            }
        }
        let mut d = match self.get_directory_by_fcb(&fcb) {
            Ok(d) => d,
            Err(e) => {
                proof {
                    if good {
                        let c = content_at(f0, d0, fcb.first_cluster)->0;
                        let w = choose|d: DirModel| #[trigger] dir_bytes(d) == c && d.files.len() >= 2;
                        assert(dir_bytes(w) == c);
                    }
                }
                return Err(e);
            },
        };
        let ghost loaded = d@;
        if d.files.len() < 2 {
            proof {
                if good {
                    let c = content_at(f0, d0, fcb.first_cluster)->0;
                    let w = choose|d: DirModel| #[trigger] dir_bytes(d) == c && d.files.len() >= 2;
                    lemma_dir_bytes_injective(loaded, w);
                }
            }
            return Err(FsError::CorruptDirectory);
        }
        if str_eq(name, "..") {
            let size = self.cur_dir.files[0].length;
            assert(self.cur_dir@.files[0] == self.cur_dir.files@[0]@);
            proof {
                lemma_find_index(d@.files, self.cur_dir@.name);
            }
            match d.get_fcb(self.cur_dir.name.as_str()) {
                Some((j, _)) => {
                    let e = d.files[j].duplicate();
                    assert(d@.files[j as int] == d.files@[j as int]@);
                    d.files.set(
                        j,
                        Fcb {
                            name: e.name,
                            file_type: e.file_type,
                            first_cluster: e.first_cluster,
                            length: size,
                        },
                    );
                    assert(d@.files =~= with_child_length(loaded, old_dir.name, size).files);
                },
                None => {},
            }
            assert(d@ == with_child_length(loaded, old_dir.name, size));
        }
        self.cur_dir = d;
        Ok(())
    }

    /// The directory that `path` leads to from `start`: each name of the
    /// path is looked up in the directory reached so far and loaded.
    pub fn resolve_path(&self, start: &Directory, path: &str) -> (r: Result<Directory, FsError>)
        requires
            self.disk.wf(),
        ensures
            match walk_path(self.fat(), self.disk.data@, start@, path_segments(path@)) {
                Ok(m) => r is Ok && r->Ok_0@ == m,
                Err(e) => r is Err && r->Err_0 == e,
            },
    {
        let names = split_path(path);
        let ghost segs = path_segments(path@);
        let mut cur = start.duplicate();
        let mut k: usize = 0;
        assert(segs.skip(0) =~= segs);
        while k < names.len()
            invariant
                self.disk.wf(),
                k <= names@.len(),
                strings_view(names@) == segs,
                segs == path_segments(path@),
                walk_path(self.fat(), self.disk.data@, cur@, segs.skip(k as int)) == walk_path(
                    self.fat(),
                    self.disk.data@,
                    start@,
                    segs,
                ),
            decreases names@.len() - k,
        {
            let ghost rest = segs.skip(k as int);
            assert(strings_view(names@).len() == names@.len());
            assert(rest.len() > 0);
            assert(rest[0] == names@[k as int]@);
            assert(rest.drop_first() =~= segs.skip(k + 1));
            proof {
                lemma_find_index(cur@.files, rest[0]);
            }
            let index = match cur.get_fcb(names[k].as_str()) {
                Some((index, _)) => index,
                None => {
                    assert(walk_path(self.fat(), self.disk.data@, cur@, rest) == Err::<DirModel, FsError>(FsError::NotFound));
                    return Err(FsError::NotFound);
                },
            };
            let fcb = cur.files[index].duplicate();
            assert(cur@.files[index as int] == cur.files@[index as int]@);
            let next = match self.get_directory_by_fcb(&fcb) {
                Ok(next) => next,
                Err(e) => {
                    proof {
                        let w = walk_path(self.fat(), self.disk.data@, cur@, rest);
                        if fcb.file_type == FileType::File {
                            assert(w == Err::<DirModel, FsError>(FsError::NotADirectory));
                        } else if content_at(self.fat(), self.disk.data@, fcb.first_cluster) is None {
                            assert(w == Err::<DirModel, FsError>(FsError::CorruptChain));
                        } else {
                            let c = content_at(self.fat(), self.disk.data@, fcb.first_cluster)->0;
                            assert(!exists|e: DirModel| #[trigger] dir_bytes(e) == c);
                            assert(w == Err::<DirModel, FsError>(FsError::CorruptDirectory));
                        }
                    }
                    return Err(e);
                },
            };
            proof {
                let c = content_at(self.fat(), self.disk.data@, fcb.first_cluster)->0;
                assert(dir_bytes(next@) == c);
                let e = choose|e: DirModel| #[trigger] dir_bytes(e) == c;
                lemma_dir_bytes_injective(next@, e);
            }
            cur = next;
            k = k + 1;
        }
        assert(segs.skip(k as int).len() == 0);
        Ok(cur)
    }

    /// Copies the file `name` of the working directory into the directory
    /// that `path` leads to, on a chain of its own, and writes that
    /// directory back.
    pub fn copy_file_by_name(&mut self, name: &str, path: &str) -> (r: Result<(), FsError>)
        requires
            old(self).wf(),
        ensures
            final(self).wf(),
            final(self).cur_dir == old(self).cur_dir,
            find_index(old(self).cur_dir@.files, name@) is None ==> r is Err && r->Err_0
                == FsError::NotFound && final(self).fat() == old(self).fat() && final(self).disk.data@
                == old(self).disk.data@,
            ({
                let fat = old(self).fat();
                let data = old(self).disk.data@;
                let f = old(self).cur_dir@.files[find_index(old(self).cur_dir@.files, name@)->0];
                let w = walk_path(fat, data, old(self).cur_dir@, path_segments(path@));
                &&& find_index(old(self).cur_dir@.files, name@) is Some
                &&& f.file_type == FileType::File
                &&& content_at(fat, data, f.first_cluster) is Some
                &&& w is Ok
                &&& find_index(w->Ok_0.files, name@) is Some
            }) ==> r is Err && r->Err_0 == FsError::AlreadyExists && final(self).fat() == old(self).fat()
                && final(self).disk.data@ == old(self).disk.data@,
            ({
                let fat = old(self).fat();
                let data = old(self).disk.data@;
                let f = old(self).cur_dir@.files[find_index(old(self).cur_dir@.files, name@)->0];
                let c = content_at(fat, data, f.first_cluster)->0;
                let w = walk_path(fat, data, old(self).cur_dir@, path_segments(path@));
                let m = w->Ok_0;
                &&& find_index(old(self).cur_dir@.files, name@) is Some
                &&& f.file_type == FileType::File
                &&& content_at(fat, data, f.first_cluster) is Some
                &&& w is Ok
                &&& m.files.len() >= 1
                &&& find_index(m.files, name@) is None
                &&& chain_of(fat, m.files[0].first_cluster) is Some
                &&& plain_chain(fat, chain_of(fat, m.files[0].first_cluster)->0)
                &&& count_free(fat) >= blocks_for(c.len()) + blocks_for(
                    dir_bytes(
                        with_entry(
                            m,
                            FcbModel {
                                name: name@,
                                file_type: FileType::File,
                                first_cluster: 0,
                                length: c.len() as usize,
                            },
                        ),
                    ).len(),
                )
            }) ==> r is Ok,
            r is Ok ==> {
                let fat = old(self).fat();
                let data = old(self).disk.data@;
                let f = old(self).cur_dir@.files[find_index(old(self).cur_dir@.files, name@)->0];
                let m = walk_path(fat, data, old(self).cur_dir@, path_segments(path@))->Ok_0;
                let df = m.files[0].first_cluster;
                let dc = chain_of(fat, df)->0;
                let oc = chain_of(fat, f.first_cluster)->0;
                chain_of(fat, df) is Some && plain_chain(fat, dc) && chain_of(fat, f.first_cluster)
                    is Some && plain_chain(fat, oc) && (forall|a: int|
                    0 <= a < oc.len() ==> !dc.contains(#[trigger] oc[a])) ==> exists|first: usize|
                    holds(
                        final(self).fat(),
                        final(self).disk.data@,
                        df,
                        #[trigger] dir_bytes(
                            with_entry(
                                m,
                                FcbModel {
                                    name: name@,
                                    file_type: FileType::File,
                                    first_cluster: first,
                                    length: content_at(fat, data, f.first_cluster)->0.len() as usize,
                                },
                            ),
                        ),
                    ) && chain_of(final(self).fat(), first) is Some && chain_of(
                        final(self).fat(),
                        f.first_cluster,
                    ) == chain_of(fat, f.first_cluster) && content_at(
                        final(self).fat(),
                        final(self).disk.data@,
                        f.first_cluster,
                    ) == content_at(fat, data, f.first_cluster) && (forall|a: int|
                        0 <= a < oc.len() ==> !chain_of(final(self).fat(), first)->0.contains(
                            #[trigger] oc[a],
                        ))
            },
            r is Ok ==> {
                let fat = old(self).fat();
                let data = old(self).disk.data@;
                let f = old(self).cur_dir@.files[find_index(old(self).cur_dir@.files, name@)->0];
                let m = walk_path(fat, data, old(self).cur_dir@, path_segments(path@))->Ok_0;
                &&& find_index(old(self).cur_dir@.files, name@) is Some
                &&& f.file_type == FileType::File
                &&& content_at(fat, data, f.first_cluster) is Some
                &&& walk_path(fat, data, old(self).cur_dir@, path_segments(path@)) is Ok
                &&& m.files.len() >= 1
                &&& find_index(m.files, name@) is None
                &&& exists|first: usize|
                    holds(
                        final(self).fat(),
                        final(self).disk.data@,
                        m.files[0].first_cluster,
                        #[trigger] dir_bytes(
                            with_entry(
                                m,
                                FcbModel {
                                    name: name@,
                                    file_type: FileType::File,
                                    first_cluster: first,
                                    length: content_at(fat, data, f.first_cluster)->0.len() as usize,
                                },
                            ),
                        ),
                    ) && (chain_of(fat, m.files[0].first_cluster) is Some && plain_chain(
                        fat,
                        chain_of(fat, m.files[0].first_cluster)->0,
                    ) && readable_back(content_at(fat, data, f.first_cluster)->0) ==> content_at(
                        final(self).fat(),
                        final(self).disk.data@,
                        first,
                    ) == content_at(fat, data, f.first_cluster))
            },
    {
        proof {
            lemma_find_index(self.cur_dir@.files, name@);
        }
        let index = match self.cur_dir.get_fcb(name) {
            Some((index, _)) => index,
            None => return Err(FsError::NotFound),
        };
        let fcb = self.cur_dir.files[index].duplicate();
        assert(self.cur_dir@.files[index as int] == self.cur_dir.files@[index as int]@);
        let data = self.get_file_by_fcb(&fcb)?;
        assert(data@ == content_at(self.fat(), self.disk.data@, fcb.first_cluster)->0);
        let start = self.cur_dir.duplicate();
        let mut dest = self.resolve_path(&start, path)?;
        assert(dest@ == walk_path(self.fat(), self.disk.data@, self.cur_dir@, path_segments(path@))->Ok_0);
        if dest.get_fcb(name).is_some() {
            return Err(FsError::AlreadyExists);
        }
        if dest.files.len() < 1 {
            return Err(FsError::CorruptDirectory);
        }
        let ghost m = dest@;
        let ghost f0 = self.fat();
        let ghost d0 = self.disk.data@;
        let table_len: usize = self.disk.fat.len();
        assert(f0.len() == table_len);
        let first_cluster = self.write_to_disk(data.as_slice())?;
        let ghost f1 = self.fat();
        let ghost d1 = self.disk.data@;
        let entry = Fcb { name: name.to_owned(), file_type: FileType::File, first_cluster, length: data.len() };
        let ghost fm = entry@;
        assert(fm == FcbModel {
            name: name@,
            file_type: FileType::File,
            first_cluster: first_cluster,
            length: data@.len() as usize,
        });
        self.add_entry(&mut dest, entry);
        let ghost added = dest@;
        assert(added.files[0].first_cluster == m.files[0].first_cluster);
        proof {
            let df = m.files[0].first_cluster;
            let cp = chain_of(f1, first_cluster)->0;
            let f0m = FcbModel {
                name: name@,
                file_type: FileType::File,
                first_cluster: 0,
                length: data@.len() as usize,
            };
            if chain_of(f0, df) is Some && plain_chain(f0, chain_of(f0, df)->0) {
                lemma_allocated_count(f0, f1, cp);
                lemma_alloc_keeps_plain_chain(f0, f1, cp, df);
                lemma_free_all_mono(f1, chain_of(f1, df)->0);
                crate::codec::lemma_last_entry_len(
                    m.name,
                    with_self_length(m.files, sat_add(m.files[0].length, fm.length as nat)),
                    fm,
                    f0m,
                );
                assert(added == with_entry(m, fm));
            }
        }
        self.save_dir_to_disk(&dest)?;
        proof {
            let df = m.files[0].first_cluster;
            if chain_of(f0, df) is Some && plain_chain(f0, chain_of(f0, df)->0) && readable_back(data@) {
                lemma_stored_survives_save(f0, d0, f1, d1, self.fat(), self.disk.data@, first_cluster, data@, df);
            }
            let of = fcb@.first_cluster;
            let dc = chain_of(f0, df)->0;
            let oc = chain_of(f0, of)->0;
            if chain_of(f0, df) is Some && plain_chain(f0, dc) && chain_of(f0, of) is Some && plain_chain(
                f0,
                oc,
            ) && (forall|a: int| 0 <= a < oc.len() ==> !dc.contains(#[trigger] oc[a])) {
                let cp = chain_of(f1, first_cluster)->0;
                lemma_alloc_keeps_plain_chain(f0, f1, cp, df);
                lemma_alloc_keeps_plain_chain(f0, f1, cp, of);
                lemma_stored_survives_save(f0, d0, f1, d1, self.fat(), self.disk.data@, first_cluster, data@, df);
                assert forall|a: int| 0 <= a < oc.len() implies !chain_of(f1, df)->0.contains(#[trigger] oc[a]) by {
                    assert(!dc.contains(oc[a]));
                }
                lemma_save_keeps_chain(f1, d1, self.fat(), self.disk.data@, df, of);
                assert forall|k: int| 0 <= k < d0.len() && in_blocks(oc, k) implies #[trigger] d1[k] == d0[k] by {
                    let i = choose|i: int| 0 <= i < oc.len() && (#[trigger] oc[i]) * BLOCK_SIZE <= k < oc[i] * BLOCK_SIZE + BLOCK_SIZE;
                    if in_blocks(cp, k) {
                        let a = choose|a: int| 0 <= a < cp.len() && (#[trigger] cp[a]) * BLOCK_SIZE <= k < cp[a] * BLOCK_SIZE + BLOCK_SIZE;
                        if cp[a] != oc[i] {
                            crate::disk::lemma_blocks_disjoint(cp[a] as int, k - cp[a] * BLOCK_SIZE, oc[i] as int, k - oc[i] * BLOCK_SIZE);
                        }
                        assert(!cp.contains(oc[i]));
                        assert(cp.contains(cp[a]));
                    }
                }
                lemma_allocated_outside(f0, f1, cp);
                assert forall|i: int| 0 <= i < oc.len() implies f1[#[trigger] oc[i] as int] == f0[oc[i] as int] by {
                    assert(!cp.contains(oc[i]));
                    lemma_chain_bounds(f0, of);
                }
                lemma_content_frame(f0, d0, f1, d1, of);
                assert(chain_of(self.fat(), first_cluster) == Some(cp));
                assert forall|a: int| 0 <= a < oc.len() implies !chain_of(self.fat(), first_cluster)->0.contains(#[trigger] oc[a]) by {
                    assert(!cp.contains(oc[a]));
                }
                assert(holds(self.fat(), self.disk.data@, df, dir_bytes(with_entry(m, FcbModel {
                    name: name@,
                    file_type: FileType::File,
                    first_cluster: first_cluster,
                    length: data@.len() as usize,
                }))));
            }
        }
        assert(holds(self.fat(), self.disk.data@, m.files[0].first_cluster, dir_bytes(with_entry(m, fm))));
        assert(holds(self.fat(), self.disk.data@, m.files[0].first_cluster, dir_bytes(with_entry(m, FcbModel {
            name: name@,
            file_type: FileType::File,
            first_cluster: first_cluster,
            length: data@.len() as usize,
        }))));
        Ok(())
    }

    /// Adds `entry` to `dir` and its length to `dir`'s own entry.
    fn add_entry(&self, dir: &mut Directory, entry: Fcb)
        requires
            old(dir)@.files.len() >= 1,
        ensures
            final(dir)@ == with_entry(old(dir)@, entry@),
    {
        let own = dir.files[0].duplicate();
        assert(old(dir)@.files[0] == old(dir).files@[0]@);
        let length: usize = if own.length > usize::MAX - entry.length {
            usize::MAX
        } else {
            own.length + entry.length
        };
        let ghost files0 = dir@.files;
        dir.files.set(
            0,
            Fcb { name: own.name, file_type: own.file_type, first_cluster: own.first_cluster, length },
        );
        dir.files.push(entry);
        assert(dir@.files =~= with_entry(old(dir)@, entry@).files);
    }

    /// Moves the entry `name` of the working directory, unchanged, into the
    /// directory that `path` leads to (followed from the working directory
    /// without that entry). Both directories are written back; the entry's
    /// chain stays where it is.
    pub fn move_file_by_name(&mut self, name: &str, path: &str) -> (r: Result<(), FsError>)
        requires
            old(self).wf(),
        ensures
            final(self).wf(),
            find_index(old(self).cur_dir@.files, name@) is None ==> r is Err && r->Err_0
                == FsError::NotFound && final(self).cur_dir@ == old(self).cur_dir@,
            find_index(old(self).cur_dir@.files, name@) is Some && find_index(
                old(self).cur_dir@.files,
                name@,
            )->0 < 2 ==> r is Err && r->Err_0 == FsError::Reserved && final(self).cur_dir@ == old(
                self,
            ).cur_dir@,
            find_index(old(self).cur_dir@.files, name@) is None || find_index(
                old(self).cur_dir@.files,
                name@,
            )->0 < 2 ==> final(self).fat() == old(self).fat() && final(self).disk.data@ == old(
                self,
            ).disk.data@,
            ({
                let i = find_index(old(self).cur_dir@.files, name@)->0;
                let src = without_entry(old(self).cur_dir@, i);
                let w = walk_path(old(self).fat(), old(self).disk.data@, src, path_segments(path@));
                &&& find_index(old(self).cur_dir@.files, name@) is Some
                &&& i >= 2
                &&& w is Ok
                &&& find_index(w->Ok_0.files, name@) is Some
            }) ==> r is Err && r->Err_0 == FsError::AlreadyExists && final(self).cur_dir@ == old(
                self,
            ).cur_dir@ && final(self).fat() == old(self).fat() && final(self).disk.data@ == old(
                self,
            ).disk.data@,
            ({
                let fat = old(self).fat();
                let i = find_index(old(self).cur_dir@.files, name@)->0;
                let f = old(self).cur_dir@.files[i];
                let src = without_entry(old(self).cur_dir@, i);
                let w = walk_path(fat, old(self).disk.data@, src, path_segments(path@));
                let m = w->Ok_0;
                let cf = old(self).cur_dir@.files[0].first_cluster;
                let cc = chain_of(fat, cf)->0;
                let dc = chain_of(fat, m.files[0].first_cluster)->0;
                &&& find_index(old(self).cur_dir@.files, name@) is Some
                &&& i >= 2
                &&& w is Ok
                &&& m.files.len() >= 1
                &&& find_index(m.files, name@) is None
                &&& chain_of(fat, cf) is Some
                &&& chain_of(fat, m.files[0].first_cluster) is Some
                &&& plain_chain(fat, dc)
                &&& (forall|a: int| 0 <= a < dc.len() ==> !cc.contains(#[trigger] dc[a]))
                &&& count_free(free_all(fat, cc)) >= blocks_for(dir_bytes(src).len()) + blocks_for(
                    dir_bytes(with_entry(m, f)).len(),
                )
            }) ==> r is Ok,
            r is Ok && (forall|j: int|
                0 <= j < old(self).cur_dir@.files.len() && j != find_index(
                    old(self).cur_dir@.files,
                    name@,
                )->0 ==> #[trigger] old(self).cur_dir@.files[j].name != name@) ==> find_index(
                final(self).cur_dir@.files,
                name@,
            ) is None,
            r is Ok ==> {
                let i = find_index(old(self).cur_dir@.files, name@)->0;
                let f = old(self).cur_dir@.files[i];
                let src = without_entry(old(self).cur_dir@, i);
                let w = walk_path(old(self).fat(), old(self).disk.data@, src, path_segments(path@));
                &&& find_index(old(self).cur_dir@.files, name@) is Some
                &&& i >= 2
                &&& final(self).cur_dir@ == src
                &&& w is Ok
                &&& w->Ok_0.files.len() >= 1
                &&& find_index(w->Ok_0.files, name@) is None
                &&& holds(
                    final(self).fat(),
                    final(self).disk.data@,
                    w->Ok_0.files[0].first_cluster,
                    dir_bytes(with_entry(w->Ok_0, f)),
                )
            },
            r is Ok ==> {
                let i = find_index(old(self).cur_dir@.files, name@)->0;
                let f = old(self).cur_dir@.files[i];
                let src = without_entry(old(self).cur_dir@, i);
                let w = walk_path(old(self).fat(), old(self).disk.data@, src, path_segments(path@));
                let fat = old(self).fat();
                let mv = chain_of(fat, f.first_cluster)->0;
                let cc = chain_of(fat, old(self).cur_dir@.files[0].first_cluster)->0;
                let dc = chain_of(fat, w->Ok_0.files[0].first_cluster)->0;
                chain_of(fat, f.first_cluster) is Some && plain_chain(fat, mv) && chain_of(
                    fat,
                    w->Ok_0.files[0].first_cluster,
                ) is Some && plain_chain(fat, dc) && (forall|a: int|
                    0 <= a < mv.len() ==> !cc.contains(#[trigger] mv[a]) && !dc.contains(mv[a]))
                    && (forall|a: int| 0 <= a < dc.len() ==> !cc.contains(#[trigger] dc[a]))
                    ==> content_at(final(self).fat(), final(self).disk.data@, f.first_cluster)
                    == content_at(fat, old(self).disk.data@, f.first_cluster)
            },
    {
        proof {
            lemma_find_index(self.cur_dir@.files, name@);
        }
        let index = match self.cur_dir.get_fcb(name) {
            Some((index, _)) => index,
            None => return Err(FsError::NotFound),
        };
        if index < 2 {
            return Err(FsError::Reserved);
        }
        let fcb = self.cur_dir.files[index].duplicate();
        assert(self.cur_dir@.files[index as int] == self.cur_dir.files@[index as int]@);
        let mut src = self.cur_dir.duplicate();
        let own = src.files[0].duplicate();
        assert(src@.files[0] == src.files@[0]@);
        let length: usize = if own.length < fcb.length {
            0
        } else {
            own.length - fcb.length
        };
        let ghost files0 = src@.files;
        src.files.set(
            0,
            Fcb { name: own.name, file_type: own.file_type, first_cluster: own.first_cluster, length },
        );
        let ghost files1 = src@.files;
        src.files.remove(index);
        proof {
            assert(files1 =~= with_self_length(files0, length));
            assert(src@.files =~= files1.remove(index as int));
            assert(src@ == without_entry(self.cur_dir@, index as int));
        }
        let mut dest = self.resolve_path(&src, path)?;
        let ghost m = dest@;
        if dest.get_fcb(name).is_some() {
            return Err(FsError::AlreadyExists);
        }
        if dest.files.len() < 1 {
            return Err(FsError::CorruptDirectory);
        }
        let ghost f0 = self.fat();
        let ghost d0 = self.disk.data@;
        let ghost cf = self.cur_dir@.files[0].first_cluster;
        self.cur_dir = src;
        let cur = self.cur_dir.duplicate();
        assert(cur@.files[0].first_cluster == cf);
        self.save_dir_to_disk(&cur)?;
        let ghost f1 = self.fat();
        let ghost d1 = self.disk.data@;
        let ghost fm = fcb@;
        let ghost df = m.files[0].first_cluster;
        self.add_entry(&mut dest, fcb);
        assert(dest@.files[0].first_cluster == df);
        proof {
            let cc = chain_of(f0, cf)->0;
            let dc = chain_of(f0, df)->0;
            if chain_of(f0, df) is Some && plain_chain(f0, dc) && (forall|a: int|
                0 <= a < dc.len() ==> !cc.contains(#[trigger] dc[a])) {
                lemma_save_keeps_chain(f0, d0, f1, d1, cf, df);
                lemma_free_all_mono(f1, chain_of(f1, df)->0);
            }
        }
        self.save_dir_to_disk(&dest)?;
        proof {
            let mv = chain_of(f0, fm.first_cluster)->0;
            let cc = chain_of(f0, cf)->0;
            let dc = chain_of(f0, df)->0;
            if chain_of(f0, fm.first_cluster) is Some && plain_chain(f0, mv) && chain_of(f0, df) is Some
                && plain_chain(f0, dc) && (forall|a: int|
                0 <= a < mv.len() ==> !cc.contains(#[trigger] mv[a]) && !dc.contains(mv[a]))
                && (forall|a: int| 0 <= a < dc.len() ==> !cc.contains(#[trigger] dc[a])) {
                lemma_save_keeps_chain(f0, d0, f1, d1, cf, fm.first_cluster);
                lemma_save_keeps_chain(f0, d0, f1, d1, cf, df);
                assert forall|a: int| 0 <= a < mv.len() implies !chain_of(f1, df)->0.contains(#[trigger] mv[a]) by {
                    assert(!dc.contains(mv[a]));
                }
                lemma_save_keeps_chain(f1, d1, self.fat(), self.disk.data@, df, fm.first_cluster);
            }
        }
        assert(holds(self.fat(), self.disk.data@, m.files[0].first_cluster, dir_bytes(with_entry(m, fm))));
        proof {
            let d = old(self).cur_dir@;
            let i = index as int;
            if forall|j: int| 0 <= j < d.files.len() && j != i ==> #[trigger] d.files[j].name != name@ {
                assert(d.files[i].name == name@);
                lemma_move_relocates(d, i, m);
            }
        }
        Ok(())
    }

    /// The absolute path of the working directory: `/root` followed by the
    /// name of each directory on the way down to it.
    pub fn get_abs_path(&self) -> (r: Result<String, FsError>)
        requires
            self.wf(),
        ensures
            match walk_up(self.fat(), self.disk.data@, self.cur_dir@, self.fat().len()) {
                Ok(names) => r is Ok && r->Ok_0@ == path_text(names),
                Err(e) => r is Err && r->Err_0 == e,
            },
    {
        let mut cur = self.cur_dir.duplicate();
        let mut names: Vec<String> = Vec::new();
        let mut fuel: usize = self.disk.fat.len();
        let mut at_root = str_eq(cur.name.as_str(), "root");
        let ghost total = walk_up(self.fat(), self.disk.data@, self.cur_dir@, self.fat().len());
        assert(strings_view(names@) =~= Seq::<Seq<char>>::empty());
        while !at_root
            invariant
                self.disk.wf(),
                at_root == (cur@.name == "root"@),
                total == walk_up(self.fat(), self.disk.data@, self.cur_dir@, self.fat().len()),
                total == match walk_up(self.fat(), self.disk.data@, cur@, fuel as nat) {
                    Ok(rest) => Ok(strings_view(names@) + rest),
                    Err(x) => Err(x),
                },
            decreases fuel,
        {
            if fuel == 0 {
                return Err(FsError::CorruptDirectory);
            }
            proof {
                lemma_find_index(cur@.files, ".."@);
            }
            let index = match cur.get_fcb("..") {
                Some((index, _)) => index,
                None => return Err(FsError::NotFound),
            };
            let fcb = cur.files[index].duplicate();
            assert(cur@.files[index as int] == cur.files@[index as int]@);
            let parent = match self.get_directory_by_fcb(&fcb) {
                Ok(p) => p,
                Err(e) => {
                    proof {
                        if fcb.file_type == FileType::Directory && content_at(self.fat(), self.disk.data@, fcb.first_cluster) is Some {
                            let c = content_at(self.fat(), self.disk.data@, fcb.first_cluster)->0;
                            assert(!exists|e: DirModel| #[trigger] dir_bytes(e) == c);
                        }
                    }
                    return Err(e);
                },
            };
            proof {
                let c = content_at(self.fat(), self.disk.data@, fcb.first_cluster)->0;
                let e = choose|e: DirModel| #[trigger] dir_bytes(e) == c;
                lemma_dir_bytes_injective(parent@, e);
            }
            let ghost before = strings_view(names@);
            let ghost here = cur@.name;
            names.push(cur.name.clone());
            proof {
                assert(strings_view(names@) =~= before.push(here));
                match walk_up(self.fat(), self.disk.data@, parent@, (fuel - 1) as nat) {
                    Ok(rest) => {
                        assert(before + (seq![here] + rest) =~= before.push(here) + rest);
                    },
                    Err(x) => {},
                }
            }
            cur = parent;
            fuel = fuel - 1;
            at_root = str_eq(cur.name.as_str(), "root");
        }
        let mut text = "/root".to_owned();
        let mut k: usize = names.len();
        assert(names@.len() == strings_view(names@).len());
        assert(strings_view(names@) + Seq::<Seq<char>>::empty() =~= strings_view(names@));
        assert(strings_view(names@).skip(k as int) =~= Seq::<Seq<char>>::empty());
        while k > 0
            invariant
                k <= names@.len(),
                names@.len() == strings_view(names@).len(),
                text@ == path_text(strings_view(names@).skip(k as int)),
            decreases k,
        {
            let ghost tail = strings_view(names@).skip(k - 1);
            assert(tail.drop_first() =~= strings_view(names@).skip(k as int));
            assert(tail[0] == names@[k - 1]@);
            text.append("/");
            text.append(names[k - 1].as_str());
            k = k - 1;
        }
        assert(strings_view(names@).skip(0) =~= strings_view(names@));
        Ok(text)
    }
}

} // verus!
