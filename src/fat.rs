use vstd::prelude::*;
use crate::disk::{FATItem, BLOCK_SIZE, EOF_BYTE, padded_image, scan_from, strip_marker, zeros};

verus! {

/// Number of free entries of an allocation table.
pub open spec fn count_free(s: Seq<FATItem>) -> nat
    decreases s.len(),
{
    if s.len() == 0 {
        0
    } else {
        count_free(s.drop_last()) + if s.last() == FATItem::UnUsed {
            1nat
        } else {
            0nat
        }
    }
}

/// Number of entries that are in use: neither free nor bad.
pub open spec fn count_used(s: Seq<FATItem>) -> nat
    decreases s.len(),
{
    if s.len() == 0 {
        0
    } else {
        count_used(s.drop_last()) + if s.last() == FATItem::UnUsed || s.last()
            == FATItem::BadCluster {
            0nat
        } else {
            1nat
        }
    }
}

/// The blocks that follow `cur` on its chain, within `fuel` steps. A bad
/// entry is stepped over to the next index. `None` when the chain reaches a
/// free entry, leaves the table or does not end within `fuel` steps.
pub open spec fn walk(fat: Seq<FATItem>, cur: int, fuel: nat) -> Option<Seq<usize>>
    decreases fuel,
{
    if fuel == 0 || cur < 0 || cur >= fat.len() {
        None
    } else {
        match fat[cur] {
            FATItem::Cluster(nx) => match walk(fat, nx as int, (fuel - 1) as nat) {
                Some(rest) => Some(seq![nx] + rest),
                None => None,
            },
            FATItem::EOF => Some(Seq::empty()),
            FATItem::BadCluster => walk(fat, cur + 1, (fuel - 1) as nat),
            FATItem::UnUsed => None,
        }
    }
}

/// The chain that starts at block `start`, `start` included.
pub open spec fn chain_of(fat: Seq<FATItem>, start: usize) -> Option<Seq<usize>> {
    match walk(fat, start as int, fat.len()) {
        Some(rest) => Some(seq![start] + rest),
        None => None,
    }
}

/// The table with every entry listed in `s` marked free.
pub open spec fn free_all(fat: Seq<FATItem>, s: Seq<usize>) -> Seq<FATItem> {
    Seq::new(fat.len(), |k: int| if s.contains(k as usize) { FATItem::UnUsed } else { fat[k] })
}

/// Number of blocks a payload of `len` bytes occupies. An empty payload still
/// takes one block, which holds the end marker alone.
pub open spec fn blocks_for(len: nat) -> nat {
    if len == 0 {
        1
    } else {
        len / (BLOCK_SIZE as nat) + if len % (BLOCK_SIZE as nat) != 0 {
            1nat
        } else {
            0nat
        }
    }
}

/// Whether the end marker follows a payload of `len` bytes.
pub open spec fn needs_marker(len: nat) -> bool {
    len % (BLOCK_SIZE as nat) != 0 || len == 0
}

/// The bytes that the blocks of a stored payload hold.
pub open spec fn stored_image(b: Seq<u8>) -> Seq<u8> {
    padded_image(b, needs_marker(b.len()), blocks_for(b.len()))
}

/// Strictly increasing block indices.
pub open spec fn increasing(cs: Seq<usize>) -> bool {
    forall|i: int, j: int| 0 <= i < j < cs.len() ==> cs[i] < cs[j]
}

pub proof fn lemma_count_free_le(s: Seq<FATItem>)
    ensures
        count_free(s) <= s.len(),
    decreases s.len(),
{
    if s.len() > 0 {
        lemma_count_free_le(s.drop_last());
    }
}

pub proof fn lemma_count_free_none(s: Seq<FATItem>)
    requires
        forall|k: int| 0 <= k < s.len() ==> s[k] != FATItem::UnUsed,
    ensures
        count_free(s) == 0,
    decreases s.len(),
{
    if s.len() > 0 {
        lemma_count_free_none(s.drop_last());
    }
}

/// How one changed entry moves the free count.
pub proof fn lemma_count_free_update(s: Seq<FATItem>, k: int, x: FATItem)
    requires
        0 <= k < s.len(),
    ensures
        count_free(s.update(k, x)) + (if s[k] == FATItem::UnUsed {
            1int
        } else {
            0int
        }) == count_free(s) + (if x == FATItem::UnUsed {
            1int
        } else {
            0int
        }),
    decreases s.len(),
{
    let t = s.update(k, x);
    if k < s.len() - 1 {
        assert(t.drop_last() =~= s.drop_last().update(k, x));
        lemma_count_free_update(s.drop_last(), k, x);
    } else {
        assert(t.drop_last() =~= s.drop_last());
    }
}

/// Freeing the distinct used entries `cs` adds `cs.len()` free entries.
pub proof fn lemma_free_all_count(fat: Seq<FATItem>, cs: Seq<usize>)
    requires
        forall|i: int| 0 <= i < cs.len() ==> (#[trigger] cs[i]) < fat.len() && fat[cs[i] as int]
            != FATItem::UnUsed,
        forall|i: int, j: int| 0 <= i < cs.len() && 0 <= j < cs.len() && i != j ==> cs[i] != cs[j],
        fat.len() <= usize::MAX,
    ensures
        count_free(free_all(fat, cs)) == count_free(fat) + cs.len(),
    decreases cs.len(),
{
    if cs.len() == 0 {
        assert(free_all(fat, cs) =~= fat);
    } else {
        let c = cs.last();
        let rest = cs.drop_last();
        assert forall|i: int| 0 <= i < rest.len() implies (#[trigger] rest[i]) < fat.len()
            && fat[rest[i] as int] != FATItem::UnUsed by {
            assert(rest[i] == cs[i]);
        }
        lemma_free_all_count(fat, rest);
        let f = free_all(fat, rest);
        assert(!rest.contains(c)) by {
            if rest.contains(c) {
                let i = choose|i: int| 0 <= i < rest.len() && rest[i] == c;
                assert(cs[i] == cs[cs.len() - 1]);
            }
        }
        assert(f[c as int] == fat[c as int]);
        lemma_count_free_update(f, c as int, FATItem::UnUsed);
        assert forall|k: int| 0 <= k < fat.len() implies #[trigger] free_all(fat, cs)[k] == f.update(
            c as int,
            FATItem::UnUsed,
        )[k] by {
            if k as usize == c {
                assert(cs[cs.len() - 1] == c);
                assert(cs.contains(c));
            }
            if cs.contains(k as usize) && k as usize != c {
                let i = choose|i: int| 0 <= i < cs.len() && cs[i] == k as usize;
                assert(rest[i] == k as usize);
            }
            if rest.contains(k as usize) {
                let i = choose|i: int| 0 <= i < rest.len() && rest[i] == k as usize;
                assert(cs[i] == k as usize);
            }
        }
        assert(free_all(fat, cs) =~= f.update(c as int, FATItem::UnUsed));
    }
}

/// A walk that succeeds stays inside the table and is shorter than its fuel.
pub proof fn lemma_walk_bounds(fat: Seq<FATItem>, cur: int, fuel: nat)
    requires
        walk(fat, cur, fuel) is Some,
    ensures
        walk(fat, cur, fuel)->0.len() < fuel,
        forall|i: int|
            0 <= i < walk(fat, cur, fuel)->0.len() ==> #[trigger] walk(fat, cur, fuel)->0[i]
                < fat.len(),
    decreases fuel,
{
    match fat[cur] {
        FATItem::Cluster(nx) => {
            lemma_walk_bounds(fat, nx as int, (fuel - 1) as nat);
            let rest = walk(fat, nx as int, (fuel - 1) as nat)->0;
            assert((fuel - 1) as nat > 0);
            assert(nx < fat.len());
            assert forall|i: int| 0 <= i < (seq![nx] + rest).len() implies #[trigger] (seq![nx]
                + rest)[i] < fat.len() by {
                if i > 0 {
                    assert((seq![nx] + rest)[i] == rest[i - 1]);
                }
            }
        },
        FATItem::BadCluster => {
            lemma_walk_bounds(fat, cur + 1, (fuel - 1) as nat);
        },
        _ => {},
    }
}

/// The chain from `start`, when there is one, lies in the table and is no
/// longer than the table.
pub proof fn lemma_chain_bounds(fat: Seq<FATItem>, start: usize)
    requires
        chain_of(fat, start) is Some,
    ensures
        1 <= chain_of(fat, start)->0.len() <= fat.len(),
        chain_of(fat, start)->0[0] == start,
        forall|i: int|
            0 <= i < chain_of(fat, start)->0.len() ==> #[trigger] chain_of(fat, start)->0[i]
                < fat.len(),
{
    lemma_walk_bounds(fat, start as int, fat.len());
    let rest = walk(fat, start as int, fat.len())->0;
    assert forall|i: int| 0 <= i < (seq![start] + rest).len() implies #[trigger] (seq![start]
        + rest)[i] < fat.len() by {
        if i > 0 {
            assert((seq![start] + rest)[i] == rest[i - 1]);
        }
    }
}

/// Blocks linked one to the next and ending in `EOF` form a chain.
pub proof fn lemma_walk_linked(fat: Seq<FATItem>, cs: Seq<usize>, m: int, fuel: nat)
    requires
        0 <= m < cs.len(),
        fuel >= cs.len() - m,
        forall|i: int| 0 <= i < cs.len() ==> #[trigger] cs[i] < fat.len(),
        forall|i: int| 0 <= i < cs.len() - 1 ==> fat[#[trigger] cs[i] as int] == FATItem::Cluster(cs[i + 1]),
        fat[cs[cs.len() - 1] as int] == FATItem::EOF,
    ensures
        walk(fat, cs[m] as int, fuel) == Some(cs.subrange(m + 1, cs.len() as int)),
    decreases cs.len() - m,
{
    if m < cs.len() - 1 {
        lemma_walk_linked(fat, cs, m + 1, (fuel - 1) as nat);
        assert(seq![cs[m + 1]] + cs.subrange(m + 2, cs.len() as int) =~= cs.subrange(
            m + 1,
            cs.len() as int,
        ));
    } else {
        assert(cs.subrange(m + 1, cs.len() as int) =~= Seq::<usize>::empty());
    }
}

/// A payload that the marker scan gives back whole: it ends off a block
/// boundary (or is empty), or its last block holds no end-marker byte.
pub open spec fn readable_back(b: Seq<u8>) -> bool {
    needs_marker(b.len()) || forall|j: int|
        b.len() - BLOCK_SIZE <= j < b.len() ==> #[trigger] b[j] != EOF_BYTE
}

proof fn lemma_scan_finds(d: Seq<u8>, i: int, target: int)
    requires
        1 <= i <= target <= BLOCK_SIZE,
        target <= d.len(),
        forall|t: int| i <= t < target ==> #[trigger] d[d.len() - t] != EOF_BYTE,
        d[d.len() - target] == EOF_BYTE,
    ensures
        scan_from(d, i) == d.len() - target,
    decreases target - i,
{
    if i < target {
        lemma_scan_finds(d, i + 1, target);
    }
}

proof fn lemma_scan_misses(d: Seq<u8>, i: int)
    requires
        1 <= i,
        BLOCK_SIZE <= d.len(),
        forall|t: int| i <= t <= BLOCK_SIZE ==> #[trigger] d[d.len() - t] != EOF_BYTE,
    ensures
        scan_from(d, i) == d.len(),
    decreases BLOCK_SIZE + 1 - i,
{
    if i <= BLOCK_SIZE {
        lemma_scan_misses(d, i + 1);
    }
}

/// The stored image of a payload is its length rounded up to whole blocks.
pub proof fn lemma_stored_image_len(b: Seq<u8>)
    ensures
        stored_image(b).len() == blocks_for(b.len()) * BLOCK_SIZE,
        b.len() + (if needs_marker(b.len()) {
            1int
        } else {
            0int
        }) <= blocks_for(b.len()) * BLOCK_SIZE,
        blocks_for(b.len()) * BLOCK_SIZE < b.len() + BLOCK_SIZE + 1,
        blocks_for(b.len()) >= 1,
{
    let len = b.len();
    let q = len / (BLOCK_SIZE as nat);
    let r = len % (BLOCK_SIZE as nat);
    assert(len == q * BLOCK_SIZE + r) by (nonlinear_arith)
        requires
            q == len / (BLOCK_SIZE as nat),
            r == len % (BLOCK_SIZE as nat),
    ;
    if r != 0 {
        assert((q + 1) * BLOCK_SIZE == q * BLOCK_SIZE + BLOCK_SIZE) by (nonlinear_arith);
    }
    if len == 0 {
        assert(q == 0);
    }
    if r == 0 && len > 0 {
        assert(q >= 1) by (nonlinear_arith)
            requires
                len == q * BLOCK_SIZE,
                len > 0,
        ;
    }
}

/// Reading back a stored payload gives the payload.
pub proof fn lemma_stored_content(b: Seq<u8>)
    requires
        readable_back(b),
    ensures
        strip_marker(stored_image(b)) == b,
{
    lemma_stored_image_len(b);
    let img = stored_image(b);
    let len = b.len() as int;
    let total = img.len() as int;
    if needs_marker(b.len()) {
        let m = b.push(EOF_BYTE);
        assert(img == m + zeros((total - m.len()) as nat));
        let target = total - len;
        assert forall|t: int| 1 <= t < target implies #[trigger] img[total - t] != EOF_BYTE by {
            assert(img[total - t] == 0u8);
        }
        assert(img[len] == EOF_BYTE);
        lemma_scan_finds(img, 1, target);
    } else {
        assert(img =~= b);
        lemma_scan_misses(img, 1);
    }
    assert(img.subrange(0, len) =~= b);
}

pub proof fn lemma_count_free_all(s: Seq<FATItem>)
    requires
        forall|k: int| 0 <= k < s.len() ==> s[k] == FATItem::UnUsed,
    ensures
        count_free(s) == s.len(),
    decreases s.len(),
{
    if s.len() > 0 {
        lemma_count_free_all(s.drop_last());
    }
}

/// Every block of a chain is in use, and none but its blocks is on it when
/// no entry of it is bad.
pub open spec fn plain_chain(fat: Seq<FATItem>, cs: Seq<usize>) -> bool {
    forall|i: int|
        0 <= i < cs.len() ==> (#[trigger] fat[cs[i] as int] is Cluster || fat[cs[i] as int] is EOF)
}

proof fn lemma_walk_frame(f1: Seq<FATItem>, f2: Seq<FATItem>, cur: usize, fuel: nat)
    requires
        walk(f1, cur as int, fuel) is Some,
        f1.len() == f2.len(),
        cur < f1.len(),
        f1[cur as int] is Cluster || f1[cur as int] is EOF,
        f2[cur as int] == f1[cur as int],
        plain_chain(f1, walk(f1, cur as int, fuel)->0),
        forall|i: int|
            0 <= i < walk(f1, cur as int, fuel)->0.len() ==> f2[#[trigger] walk(f1, cur as int, fuel)->0[i] as int]
                == f1[walk(f1, cur as int, fuel)->0[i] as int],
    ensures
        walk(f2, cur as int, fuel) == walk(f1, cur as int, fuel),
    decreases fuel,
{
    if let FATItem::Cluster(nx) = f1[cur as int] {
        let rest = walk(f1, nx as int, (fuel - 1) as nat)->0;
        let all = walk(f1, cur as int, fuel)->0;
        assert(all == seq![nx] + rest);
        assert(all[0] == nx);
        assert(f1[all[0] as int] is Cluster || f1[all[0] as int] is EOF);
        lemma_walk_bounds(f1, cur as int, fuel);
        assert(nx < f1.len());
        assert forall|i: int| 0 <= i < rest.len() implies (#[trigger] f1[rest[i] as int] is Cluster
            || f1[rest[i] as int] is EOF) by {
            assert(rest[i] == all[i + 1]);
            assert(f1[all[i + 1] as int] is Cluster || f1[all[i + 1] as int] is EOF);
        }
        assert forall|i: int| 0 <= i < rest.len() implies f2[#[trigger] rest[i] as int] == f1[rest[i] as int] by {
            assert(rest[i] == all[i + 1]);
        }
        assert(f2[nx as int] == f1[all[0] as int]);
        lemma_walk_frame(f1, f2, nx, (fuel - 1) as nat);
    }
}

/// A chain without bad entries stays the same chain while its own entries
/// stay the same, whatever happens to the rest of the table.
pub proof fn lemma_chain_frame(f1: Seq<FATItem>, f2: Seq<FATItem>, start: usize)
    requires
        chain_of(f1, start) is Some,
        plain_chain(f1, chain_of(f1, start)->0),
        f1.len() == f2.len(),
        forall|i: int|
            0 <= i < chain_of(f1, start)->0.len() ==> f2[#[trigger] chain_of(f1, start)->0[i] as int]
                == f1[chain_of(f1, start)->0[i] as int],
    ensures
        chain_of(f2, start) == chain_of(f1, start),
{
    let cs = chain_of(f1, start)->0;
    let rest = walk(f1, start as int, f1.len())->0;
    lemma_chain_bounds(f1, start);
    assert(cs[0] == start);
    assert(f1[cs[0] as int] is Cluster || f1[cs[0] as int] is EOF);
    assert forall|i: int| 0 <= i < rest.len() implies (#[trigger] f1[rest[i] as int] is Cluster
        || f1[rest[i] as int] is EOF) by {
        assert(rest[i] == cs[i + 1]);
        assert(f1[cs[i + 1] as int] is Cluster || f1[cs[i + 1] as int] is EOF);
    }
    assert forall|i: int| 0 <= i < rest.len() implies f2[#[trigger] rest[i] as int] == f1[rest[i] as int] by {
        assert(rest[i] == cs[i + 1]);
    }
    assert(f2[start as int] == f1[cs[0] as int]);
    lemma_walk_frame(f1, f2, start, f1.len());
}

/// A table whose free entries stay free has at least as many free entries.
pub proof fn lemma_count_free_mono(s: Seq<FATItem>, t: Seq<FATItem>)
    requires
        s.len() == t.len(),
        forall|k: int| 0 <= k < s.len() && s[k] == FATItem::UnUsed ==> #[trigger] t[k] == FATItem::UnUsed,
    ensures
        count_free(t) >= count_free(s),
    decreases s.len(),
{
    if s.len() > 0 {
        lemma_count_free_mono(s.drop_last(), t.drop_last());
    }
}

/// Freeing a chain never lowers the free count.
pub proof fn lemma_free_all_mono(s: Seq<FATItem>, cs: Seq<usize>)
    ensures
        count_free(free_all(s, cs)) >= count_free(s),
{
    lemma_count_free_mono(s, free_all(s, cs));
}

} // verus!
