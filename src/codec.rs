use vstd::prelude::*;
use vstd::utf8::{
    valid_utf8, decode_utf8, encode_utf8, encode_utf8_decode_utf8, encode_utf8_valid_utf8,
    decode_utf8_encode_utf8,
};
use crate::directory::{Directory, Fcb, FileType, DirModel, FcbModel, fcbs_view};
use crate::error::FsError;

verus! {

/// 256 to the power `n`.
pub open spec fn pow256(n: nat) -> nat
    decreases n,
{
    if n == 0 {
        1
    } else {
        256 * pow256((n - 1) as nat)
    }
}

/// `v` as `n` little-endian bytes.
pub open spec fn le_bytes(v: nat, n: nat) -> Seq<u8>
    decreases n,
{
    if n == 0 {
        Seq::empty()
    } else {
        seq![(v % 256) as u8] + le_bytes(v / 256, (n - 1) as nat)
    }
}

/// The number that little-endian bytes stand for.
pub open spec fn le_value(s: Seq<u8>) -> nat
    decreases s.len(),
{
    if s.len() == 0 {
        0
    } else {
        s[0] as nat + 256 * le_value(s.drop_first())
    }
}

/// A number field: eight little-endian bytes.
pub open spec fn num_rec(v: nat) -> Seq<u8> {
    le_bytes(v, 8)
}

/// A string field: its UTF-8 length as a number field, then its UTF-8 bytes.
pub open spec fn str_rec(s: Seq<char>) -> Seq<u8> {
    num_rec(encode_utf8(s).len()) + encode_utf8(s)
}

/// The number that stands for an entry kind.
pub open spec fn type_tag(t: FileType) -> nat {
    match t {
        FileType::File => 0,
        FileType::Directory => 1,
    }
}

/// An entry record: name, kind, first block, length.
pub open spec fn fcb_rec(f: FcbModel) -> Seq<u8> {
    str_rec(f.name) + num_rec(type_tag(f.file_type)) + num_rec(f.first_cluster as nat) + num_rec(
        f.length as nat,
    )
}

/// Entry records one after the other.
pub open spec fn fcbs_rec(fs: Seq<FcbModel>) -> Seq<u8>
    decreases fs.len(),
{
    if fs.len() == 0 {
        Seq::empty()
    } else {
        fcbs_rec(fs.drop_last()) + fcb_rec(fs.last())
    }
}

/// The stored form of a directory: its name, the number of entries, then
/// the entry records in order.
pub open spec fn dir_bytes(d: DirModel) -> Seq<u8> {
    str_rec(d.name) + num_rec(d.files.len()) + fcbs_rec(d.files)
}

/// `x` stands in `b` from position `pos` on.
pub open spec fn at(b: Seq<u8>, pos: int, x: Seq<u8>) -> bool {
    0 <= pos && pos + x.len() <= b.len() && b.subrange(pos, pos + x.len()) == x
}

proof fn lemma_pow8()
    ensures
        pow256(8) == 0x1_0000_0000_0000_0000,
{
    reveal_with_fuel(pow256, 9);
}

pub proof fn lemma_le_len(v: nat, n: nat)
    ensures
        le_bytes(v, n).len() == n,
    decreases n,
{
    if n > 0 {
        lemma_le_len(v / 256, (n - 1) as nat);
    }
}

proof fn lemma_le_value_of_bytes(v: nat, n: nat)
    requires
        v < pow256(n),
    ensures
        le_value(le_bytes(v, n)) == v,
    decreases n,
{
    if n > 0 {
        let q = v / 256;
        let p = pow256((n - 1) as nat);
        assert(q < p) by (nonlinear_arith)
            requires
                v < 256 * p,
                q == v / 256,
        ;
        lemma_le_value_of_bytes(q, (n - 1) as nat);
        let s = le_bytes(v, n);
        assert(s.drop_first() =~= le_bytes(q, (n - 1) as nat));
        assert(v == (v % 256) + 256 * q) by (nonlinear_arith)
            requires
                q == v / 256,
        ;
    } else {
        assert(pow256(0) == 1);
    }
}

proof fn lemma_le_bytes_of_value(s: Seq<u8>)
    ensures
        le_bytes(le_value(s), s.len()) == s,
        le_value(s) < pow256(s.len()),
    decreases s.len(),
{
    if s.len() > 0 {
        let rest = s.drop_first();
        lemma_le_bytes_of_value(rest);
        let y = le_value(rest);
        let x = le_value(s);
        let b = s[0] as nat;
        assert(x == b + 256 * y);
        assert(x % 256 == b && x / 256 == y) by (nonlinear_arith)
            requires
                x == b + 256 * y,
                b < 256,
        ;
        assert(x < pow256(s.len())) by (nonlinear_arith)
            requires
                x == b + 256 * y,
                b < 256,
                y < pow256(rest.len()),
                pow256(s.len()) == 256 * pow256(rest.len()),
        ;
        assert(le_bytes(x, s.len()) =~= s);
    }
}

/// Equal number fields stand for equal numbers.
proof fn lemma_num_rec_injective(v1: nat, v2: nat)
    requires
        v1 < pow256(8),
        v2 < pow256(8),
        num_rec(v1) == num_rec(v2),
    ensures
        v1 == v2,
{
    lemma_le_value_of_bytes(v1, 8);
    lemma_le_value_of_bytes(v2, 8);
}

proof fn lemma_at_split(b: Seq<u8>, pos: int, x: Seq<u8>, y: Seq<u8>)
    ensures
        at(b, pos, x + y) <==> (at(b, pos, x) && at(b, pos + x.len(), y)),
{
    let xy = x + y;
    if at(b, pos, xy) {
        let w = b.subrange(pos, pos + xy.len());
        assert(w == xy);
        assert(b.subrange(pos, pos + x.len()) =~= w.subrange(0, x.len() as int));
        assert(xy.subrange(0, x.len() as int) =~= x);
        assert(b.subrange(pos + x.len(), pos + x.len() + y.len()) =~= w.subrange(
            x.len() as int,
            xy.len() as int,
        ));
        assert(xy.subrange(x.len() as int, xy.len() as int) =~= y);
    }
    if at(b, pos, x) && at(b, pos + x.len(), y) {
        assert forall|k: int| 0 <= k < xy.len() implies #[trigger] b.subrange(pos, pos + xy.len())[k]
            == xy[k] by {
            if k < x.len() {
                assert(b.subrange(pos, pos + x.len())[k] == x[k]);
            } else {
                assert(b.subrange(pos + x.len(), pos + x.len() + y.len())[k - x.len()] == y[k
                    - x.len()]);
            }
        }
        assert(b.subrange(pos, pos + xy.len()) =~= xy);
    }
}

/// At most one string record stands at a given position.
proof fn lemma_str_rec_unique(b: Seq<u8>, pos: int, s1: Seq<char>, s2: Seq<char>)
    requires
        b.len() < pow256(8),
        at(b, pos, str_rec(s1)),
        at(b, pos, str_rec(s2)),
    ensures
        s1 == s2,
{
    let u1 = encode_utf8(s1);
    let u2 = encode_utf8(s2);
    lemma_le_len(u1.len(), 8);
    lemma_le_len(u2.len(), 8);
    lemma_at_split(b, pos, num_rec(u1.len()), u1);
    lemma_at_split(b, pos, num_rec(u2.len()), u2);
    lemma_num_rec_injective(u1.len(), u2.len());
    encode_utf8_decode_utf8(s1);
    encode_utf8_decode_utf8(s2);
}

/// At most one entry record stands at a given position.
proof fn lemma_fcb_rec_unique(b: Seq<u8>, pos: int, f1: FcbModel, f2: FcbModel)
    requires
        b.len() < pow256(8),
        at(b, pos, fcb_rec(f1)),
        at(b, pos, fcb_rec(f2)),
    ensures
        f1 == f2,
{
    lemma_pow8();
    let a1 = str_rec(f1.name);
    let a2 = str_rec(f2.name);
    let t1 = num_rec(type_tag(f1.file_type));
    let t2 = num_rec(type_tag(f2.file_type));
    let c1 = num_rec(f1.first_cluster as nat);
    let c2 = num_rec(f2.first_cluster as nat);
    let l1 = num_rec(f1.length as nat);
    let l2 = num_rec(f2.length as nat);
    lemma_at_split(b, pos, a1 + t1 + c1, l1);
    lemma_at_split(b, pos, a1 + t1, c1);
    lemma_at_split(b, pos, a1, t1);
    lemma_at_split(b, pos, a2 + t2 + c2, l2);
    lemma_at_split(b, pos, a2 + t2, c2);
    lemma_at_split(b, pos, a2, t2);
    lemma_str_rec_unique(b, pos, f1.name, f2.name);
    lemma_le_len(type_tag(f1.file_type), 8);
    lemma_le_len(f1.first_cluster as nat, 8);
    lemma_le_len(type_tag(f2.file_type), 8);
    lemma_le_len(f2.first_cluster as nat, 8);
    lemma_le_len(f1.length as nat, 8);
    lemma_le_len(f2.length as nat, 8);
    assert(f1.first_cluster <= usize::MAX && f2.first_cluster <= usize::MAX);
    assert(f1.length <= usize::MAX && f2.length <= usize::MAX);
    lemma_num_rec_injective(type_tag(f1.file_type), type_tag(f2.file_type));
    lemma_num_rec_injective(f1.first_cluster as nat, f2.first_cluster as nat);
    lemma_num_rec_injective(f1.length as nat, f2.length as nat);
}

proof fn lemma_fcb_rec_len(f: FcbModel)
    ensures
        fcb_rec(f).len() >= 32,
{
    lemma_le_len(encode_utf8(f.name).len(), 8);
    lemma_le_len(type_tag(f.file_type), 8);
    lemma_le_len(f.first_cluster as nat, 8);
    lemma_le_len(f.length as nat, 8);
}

proof fn lemma_fcbs_rec_len(fs: Seq<FcbModel>)
    ensures
        fcbs_rec(fs).len() >= fs.len(),
    decreases fs.len(),
{
    if fs.len() > 0 {
        lemma_fcbs_rec_len(fs.drop_last());
        lemma_fcb_rec_len(fs.last());
    }
}

/// The records of the first `i` entries begin the records of all of them.
proof fn lemma_fcbs_prefix(fs: Seq<FcbModel>, i: int)
    requires
        0 <= i <= fs.len(),
    ensures
        fcbs_rec(fs.take(i)).len() <= fcbs_rec(fs).len(),
        fcbs_rec(fs).subrange(0, fcbs_rec(fs.take(i)).len() as int) == fcbs_rec(fs.take(i)),
    decreases fs.len(),
{
    if i == fs.len() {
        assert(fs.take(i) =~= fs);
    } else {
        lemma_fcbs_prefix(fs.drop_last(), i);
        assert(fs.drop_last().take(i) =~= fs.take(i));
        let p = fcbs_rec(fs.take(i));
        let whole = fcbs_rec(fs);
        assert(whole == fcbs_rec(fs.drop_last()) + fcb_rec(fs.last()));
        assert(whole.subrange(0, p.len() as int) =~= fcbs_rec(fs.drop_last()).subrange(
            0,
            p.len() as int,
        ));
    }
}

/// At most one run of `n` entry records stands at a given position.
proof fn lemma_fcbs_rec_unique(b: Seq<u8>, pos: int, fs1: Seq<FcbModel>, fs2: Seq<FcbModel>)
    requires
        b.len() < pow256(8),
        fs1.len() == fs2.len(),
        at(b, pos, fcbs_rec(fs1)),
        at(b, pos, fcbs_rec(fs2)),
    ensures
        fs1 == fs2,
    decreases fs1.len(),
{
    if fs1.len() > 0 {
        lemma_at_split(b, pos, fcbs_rec(fs1.drop_last()), fcb_rec(fs1.last()));
        lemma_at_split(b, pos, fcbs_rec(fs2.drop_last()), fcb_rec(fs2.last()));
        lemma_fcbs_rec_unique(b, pos, fs1.drop_last(), fs2.drop_last());
        lemma_fcb_rec_unique(
            b,
            pos + fcbs_rec(fs1.drop_last()).len(),
            fs1.last(),
            fs2.last(),
        );
        assert(fs1 =~= fs1.drop_last().push(fs1.last()));
        assert(fs2 =~= fs2.drop_last().push(fs2.last()));
    } else {
        assert(fs1 =~= fs2);
    }
}

/// No two directories whose stored form fits in memory share that form; so
/// decoding the encoding of a directory gives that directory back.
pub proof fn lemma_dir_bytes_injective(d1: DirModel, d2: DirModel)
    requires
        dir_bytes(d1).len() <= usize::MAX,
        dir_bytes(d1) == dir_bytes(d2),
    ensures
        d1 == d2,
{
    let b = dir_bytes(d1);
    lemma_pow8();
    assert(b.len() < pow256(8));
    let a1 = str_rec(d1.name);
    let a2 = str_rec(d2.name);
    let n1 = num_rec(d1.files.len());
    let n2 = num_rec(d2.files.len());
    assert(at(b, 0, b)) by {
        assert(b.subrange(0, b.len() as int) =~= b);
    }
    lemma_at_split(b, 0, a1 + n1, fcbs_rec(d1.files));
    lemma_at_split(b, 0, a1, n1);
    lemma_at_split(b, 0, a2 + n2, fcbs_rec(d2.files));
    lemma_at_split(b, 0, a2, n2);
    lemma_str_rec_unique(b, 0, d1.name, d2.name);
    lemma_fcbs_rec_len(d1.files);
    lemma_fcbs_rec_len(d2.files);
    lemma_le_len(encode_utf8(d1.name).len(), 8);
    lemma_le_len(d1.files.len(), 8);
    lemma_le_len(d2.files.len(), 8);
    lemma_num_rec_injective(d1.files.len(), d2.files.len());
    lemma_fcbs_rec_unique(b, (a1.len() + 8) as int, d1.files, d2.files);
}

proof fn lemma_pow_mono(n: nat)
    requires
        n <= 8,
    ensures
        pow256(n) <= pow256(8),
    decreases 8 - n,
{
    if n < 8 {
        lemma_pow_mono(n + 1);
    }
}

/// Relies on std::str::from_utf8: it accepts exactly the valid UTF-8 byte
/// sequences, and the string it gives holds the characters they encode.
#[verifier::external_body]
fn utf8_string(b: &[u8]) -> (r: Option<String>)
    ensures
        r is Some <==> valid_utf8(b@),
        r is Some ==> r->0@ == decode_utf8(b@),
{
    match std::str::from_utf8(b) {
        Ok(s) => Some(s.to_string()),
        Err(_) => None,
    }
}

/// Appends `v` as a number field.
fn put_num(out: &mut Vec<u8>, v: u64)
    ensures
        final(out)@ == old(out)@ + num_rec(v as nat),
{
    let mut x: u64 = v;
    let mut i: usize = 0;
    while i < 8
        invariant
            i <= 8,
            out@ + le_bytes(x as nat, (8 - i) as nat) == old(out)@ + le_bytes(v as nat, 8),
        decreases 8 - i,
    {
        let ghost before = out@;
        assert(le_bytes(x as nat, (8 - i) as nat) == seq![(x % 256) as u8] + le_bytes(
            (x / 256) as nat,
            (8 - i - 1) as nat,
        ));
        out.push((x % 256) as u8);
        assert(out@ + le_bytes((x / 256) as nat, (8 - i - 1) as nat) =~= before + le_bytes(
            x as nat,
            (8 - i) as nat,
        ));
        x = x / 256;
        i = i + 1;
    }
    assert(le_bytes(x as nat, 0) =~= Seq::<u8>::empty());
    assert(out@ =~= out@ + le_bytes(x as nat, 0));
}

/// Reads the number field at `pos`, if the bytes reach that far.
fn get_num(b: &[u8], pos: usize) -> (r: Option<u64>)
    ensures
        r is Some <==> pos + 8 <= b@.len(),
        r is Some ==> at(b@, pos as int, num_rec(r->0 as nat)),
{
    if pos > b.len() || b.len() - pos < 8 {
        return None;
    }
    proof {
        lemma_pow8();
    }
    let n: usize = b.len();
    let mut acc: u64 = 0;
    let mut k: usize = 8;
    while k > 0
        invariant
            n == b@.len(),
            pos + 8 <= b@.len(),
            k <= 8,
            acc == le_value(b@.subrange(pos + k, pos + 8)),
            acc < pow256((8 - k) as nat),
            pow256(8) == 0x1_0000_0000_0000_0000,
        decreases k,
    {
        let ghost tail = b@.subrange(pos + k, pos + 8);
        let ghost ext = b@.subrange(pos + k - 1, pos + 8);
        assert(ext.drop_first() =~= tail);
        proof {
            lemma_pow_mono((8 - k + 1) as nat);
            assert(acc * 256 + 255 < pow256((8 - k + 1) as nat)) by (nonlinear_arith)
                requires
                    acc < pow256((8 - k) as nat),
                    pow256((8 - k + 1) as nat) == 256 * pow256((8 - k) as nat),
            ;
        }
        acc = acc * 256 + b[pos + k - 1] as u64;
        k = k - 1;
    }
    proof {
        let s = b@.subrange(pos as int, pos + 8);
        lemma_le_bytes_of_value(s);
    }
    Some(acc)
}

/// Reads the string field at `pos`, and where it ends.
fn read_str(b: &[u8], pos: usize) -> (r: Option<(String, usize)>)
    requires
        b@.len() <= usize::MAX,
    ensures
        match r {
            Some((s, p)) => p == pos + str_rec(s@).len() && at(b@, pos as int, str_rec(s@)),
            None => forall|t: Seq<char>| !at(b@, pos as int, #[trigger] str_rec(t)),
        },
{
    proof {
        lemma_pow8();
        assert forall|t: Seq<char>| #[trigger] str_rec(t).len() >= 8 by {
            lemma_le_len(encode_utf8(t).len(), 8);
        }
    }
    let l: u64 = match get_num(b, pos) {
        Some(l) => l,
        None => return None,
    };
    proof {
        lemma_le_len(l as nat, 8);
    }
    let start: usize = pos + 8;
    let room: usize = b.len() - start;
    if l > room as u64 {
        proof {
            assert forall|t: Seq<char>| !at(b@, pos as int, #[trigger] str_rec(t)) by {
                let u = encode_utf8(t);
                lemma_le_len(u.len(), 8);
                lemma_at_split(b@, pos as int, num_rec(u.len()), u);
                if at(b@, pos as int, str_rec(t)) {
                    lemma_num_rec_injective(l as nat, u.len());
                }
            }
        }
        return None;
    }
    let len: usize = l as usize;
    let mut bytes: Vec<u8> = Vec::new();
    let mut i: usize = 0;
    let n: usize = b.len();
    while i < len
        invariant
            n == b@.len(),
            start + len <= b@.len(),
            i <= len,
            bytes@ =~= b@.subrange(start as int, start + i),
        decreases len - i,
    {
        bytes.push(b[start + i]);
        i = i + 1;
    }
    proof {
        assert forall|t: Seq<char>| at(b@, pos as int, #[trigger] str_rec(t)) implies encode_utf8(t)
            == bytes@ by {
            let u = encode_utf8(t);
            lemma_le_len(u.len(), 8);
            lemma_at_split(b@, pos as int, num_rec(u.len()), u);
            lemma_num_rec_injective(l as nat, u.len());
        }
    }
    match utf8_string(bytes.as_slice()) {
        Some(s) => {
            proof {
                decode_utf8_encode_utf8(bytes@);
                lemma_le_len(bytes@.len(), 8);
                lemma_at_split(b@, pos as int, num_rec(bytes@.len()), bytes@);
            }
            Some((s, start + len))
        },
        None => {
            proof {
                assert forall|t: Seq<char>| !at(b@, pos as int, #[trigger] str_rec(t)) by {
                    if at(b@, pos as int, str_rec(t)) {
                        encode_utf8_valid_utf8(t);
                    }
                }
            }
            None
        },
    }
}

/// Reads a `usize` number field at `pos`.
fn read_usize(b: &[u8], pos: usize) -> (r: Option<usize>)
    ensures
        match r {
            Some(v) => pos + 8 <= b@.len() && at(b@, pos as int, num_rec(v as nat)),
            None => forall|v: usize| !at(b@, pos as int, #[trigger] num_rec(v as nat)),
        },
{
    proof {
        lemma_pow8();
    }
    match get_num(b, pos) {
        Some(v) => {
            if v <= usize::MAX as u64 {
                Some(v as usize)
            } else {
                proof {
                    lemma_le_len(v as nat, 8);
                    assert forall|w: usize| !at(b@, pos as int, #[trigger] num_rec(w as nat)) by {
                        lemma_le_len(w as nat, 8);
                        if at(b@, pos as int, num_rec(w as nat)) {
                            lemma_num_rec_injective(v as nat, w as nat);
                        }
                    }
                }
                None
            }
        },
        None => {
            proof {
                assert forall|w: usize| !at(b@, pos as int, #[trigger] num_rec(w as nat)) by {
                    lemma_le_len(w as nat, 8);
                }
            }
            None
        },
    }
}

/// Reads the entry record at `pos`, and where it ends.
#[verifier::rlimit(60)]
fn read_fcb(b: &[u8], pos: usize) -> (r: Option<(Fcb, usize)>)
    requires
        b@.len() <= usize::MAX,
    ensures
        match r {
            Some((f, p)) => p == pos + fcb_rec(f@).len() && at(b@, pos as int, fcb_rec(f@)),
            None => forall|g: FcbModel| !at(b@, pos as int, #[trigger] fcb_rec(g)),
        },
{
    proof {
        lemma_pow8();
    }
    let (name, at_tag) = match read_str(b, pos) {
        Some(x) => x,
        None => {
            proof {
                assert forall|g: FcbModel| !at(b@, pos as int, #[trigger] fcb_rec(g)) by {
                    let a = str_rec(g.name);
                    let t = num_rec(type_tag(g.file_type));
                    let c = num_rec(g.first_cluster as nat);
                    let l = num_rec(g.length as nat);
                    lemma_at_split(b@, pos as int, a + t + c, l);
                    lemma_at_split(b@, pos as int, a + t, c);
                    lemma_at_split(b@, pos as int, a, t);
                }
            }
            return None;
        },
    };
    let ghost a0 = str_rec(name@);
    // Whatever record stands at `pos` has this name, so its fields follow at `at_tag`.
    proof {
        assert forall|g: FcbModel| #[trigger] at(b@, pos as int, fcb_rec(g)) implies g.name == name@
            && at(b@, at_tag as int, num_rec(type_tag(g.file_type)) + num_rec(g.first_cluster as nat)
            + num_rec(g.length as nat)) by {
            let a = str_rec(g.name);
            let t = num_rec(type_tag(g.file_type));
            let c = num_rec(g.first_cluster as nat);
            let l = num_rec(g.length as nat);
            lemma_at_split(b@, pos as int, a + t + c, l);
            lemma_at_split(b@, pos as int, a + t, c);
            lemma_at_split(b@, pos as int, a, t);
            lemma_str_rec_unique(b@, pos as int, g.name, name@);
            assert(a + t + c + l =~= a + (t + c + l));
            lemma_at_split(b@, pos as int, a, t + c + l);
        }
    }
    let tag = read_usize(b, at_tag);
    let at_first: usize = if at_tag <= usize::MAX - 8 { at_tag + 8 } else { at_tag };
    let first = read_usize(b, at_first);
    let at_length: usize = if at_first <= usize::MAX - 8 { at_first + 8 } else { at_first };
    let length = if at_first <= usize::MAX - 8 { read_usize(b, at_length) } else { None };
    proof {
        assert forall|g: FcbModel| #[trigger] at(b@, pos as int, fcb_rec(g)) implies tag == Some(
            type_tag(g.file_type) as usize,
        ) && at_tag <= usize::MAX - 8 && first == Some(g.first_cluster) && at_first <= usize::MAX - 8 && length == Some(g.length) by {
            let t = num_rec(type_tag(g.file_type));
            let c = num_rec(g.first_cluster as nat);
            let l = num_rec(g.length as nat);
            lemma_le_len(type_tag(g.file_type), 8);
            lemma_le_len(g.first_cluster as nat, 8);
            lemma_le_len(g.length as nat, 8);
            assert(t + c + l =~= t + (c + l));
            lemma_at_split(b@, at_tag as int, t, c + l);
            lemma_at_split(b@, at_tag + 8, c, l);
            let tg = type_tag(g.file_type) as usize;
            assert(tg as nat == type_tag(g.file_type));
            match tag {
                Some(v) => {
                    lemma_le_len(v as nat, 8);
                    lemma_num_rec_injective(v as nat, type_tag(g.file_type));
                },
                None => {
                    assert(!at(b@, at_tag as int, num_rec(tg as nat)));
                },
            }
            match first {
                Some(v) => {
                    lemma_le_len(v as nat, 8);
                    lemma_num_rec_injective(v as nat, g.first_cluster as nat);
                },
                None => {
                    assert(!at(b@, at_first as int, num_rec(g.first_cluster as nat)));
                },
            }
            match length {
                Some(v) => {
                    lemma_le_len(v as nat, 8);
                    lemma_num_rec_injective(v as nat, g.length as nat);
                },
                None => {
                    if at_first <= usize::MAX - 8 {
                        assert(!at(b@, at_length as int, num_rec(g.length as nat)));
                    }
                },
            }
        }
    }
    let file_type = match tag {
        Some(0) => FileType::File,
        Some(1) => FileType::Directory,
        _ => return None,
    };
    let (first_cluster, length) = match (first, length) {
        (Some(c), Some(l)) => (c, l),
        _ => return None,
    };
    if at_tag > usize::MAX - 8 || at_first > usize::MAX - 8 {
        return None;
    }
    let f = Fcb { name, file_type, first_cluster, length };
    proof {
        let t = num_rec(type_tag(f.file_type));
        let c = num_rec(first_cluster as nat);
        let l = num_rec(length as nat);
        lemma_le_len(type_tag(f.file_type), 8);
        lemma_le_len(first_cluster as nat, 8);
        lemma_le_len(length as nat, 8);
        lemma_at_split(b@, pos as int, a0, t);
        lemma_at_split(b@, pos as int, a0 + t, c);
        lemma_at_split(b@, pos as int, a0 + t + c, l);
    }
    Some((f, at_length + 8))
}

/// Appends the string field of `s`.
fn put_str(out: &mut Vec<u8>, s: &str)
    ensures
        final(out)@ == old(out)@ + str_rec(s@),
{
    let bytes = s.as_bytes();
    put_num(out, bytes.len() as u64);
    let ghost mid = out@;
    let mut i: usize = 0;
    while i < bytes.len()
        invariant
            i <= bytes@.len(),
            out@ =~= mid + bytes@.subrange(0, i as int),
        decreases bytes@.len() - i,
    {
        out.push(bytes[i]);
        i = i + 1;
    }
    assert(bytes@.subrange(0, bytes@.len() as int) =~= bytes@);
    assert(out@ =~= old(out)@ + str_rec(s@));
}

/// Appends the record of entry `f`.
fn put_fcb(out: &mut Vec<u8>, f: &Fcb)
    ensures
        final(out)@ == old(out)@ + fcb_rec(f@),
{
    put_str(out, f.name.as_str());
    let tag: u64 = match f.file_type {
        FileType::File => 0,
        FileType::Directory => 1,
    };
    put_num(out, tag);
    put_num(out, f.first_cluster as u64);
    put_num(out, f.length as u64);
    assert(out@ =~= old(out)@ + fcb_rec(f@));
}

/// The stored form of a directory.
pub fn encode_directory(d: &Directory) -> (r: Vec<u8>)
    ensures
        r@ == dir_bytes(d@),
{
    let mut out: Vec<u8> = Vec::new();
    put_str(&mut out, d.name.as_str());
    put_num(&mut out, d.files.len() as u64);
    let ghost head = out@;
    let mut i: usize = 0;
    while i < d.files.len()
        invariant
            i <= d.files@.len(),
            out@ == head + fcbs_rec(d@.files.take(i as int)),
        decreases d.files@.len() - i,
    {
        put_fcb(&mut out, &d.files[i]);
        proof {
            assert(d@.files.take(i + 1).drop_last() =~= d@.files.take(i as int));
            assert(d@.files.take(i + 1).last() == d.files@[i as int]@);
        }
        i = i + 1;
    }
    assert(d@.files.take(i as int) =~= d@.files);
    assert(out@ =~= dir_bytes(d@));
    out
}

/// The directory whose stored form is `b`. Fails with `CorruptDirectory`
/// exactly when no directory is stored that way.
pub fn decode_directory(b: &[u8]) -> (r: Result<Directory, FsError>)
    ensures
        match r {
            Ok(d) => dir_bytes(d@) == b@,
            Err(e) => e == FsError::CorruptDirectory && forall|d: DirModel| #[trigger] dir_bytes(d) != b@,
        },
{
    let n: usize = b.len();
    let ghost w: Option<DirModel> = if exists|d: DirModel| #[trigger] dir_bytes(d) == b@ {
        Some(choose|d: DirModel| #[trigger] dir_bytes(d) == b@)
    } else {
        None
    };
    proof {
        lemma_pow8();
        if let Some(d) = w {
            let a = str_rec(d.name);
            let c = num_rec(d.files.len());
            assert(at(b@, 0, b@)) by {
                assert(b@.subrange(0, b@.len() as int) =~= b@);
            }
            lemma_at_split(b@, 0, a + c, fcbs_rec(d.files));
            lemma_at_split(b@, 0, a, c);
            lemma_le_len(d.files.len(), 8);
            lemma_fcbs_rec_len(d.files);
        }
    }
    let (name, at_count) = match read_str(b, 0) {
        Some(x) => x,
        None => return Err(FsError::CorruptDirectory),
    };
    proof {
        if let Some(d) = w {
            lemma_str_rec_unique(b@, 0, d.name, name@);
        }
    }
    let count: u64 = match get_num(b, at_count) {
        Some(c) => c,
        None => return Err(FsError::CorruptDirectory),
    };
    proof {
        lemma_le_len(count as nat, 8);
        if let Some(d) = w {
            lemma_num_rec_injective(count as nat, d.files.len());
        }
    }
    let at_entries: usize = at_count + 8;
    let mut files: Vec<Fcb> = Vec::new();
    let mut p: usize = at_entries;
    let mut i: u64 = 0;
    proof {
        assert(fcbs_view(files@) =~= Seq::<FcbModel>::empty());
        assert(b@.subrange(at_entries as int, at_entries as int) =~= Seq::<u8>::empty());
    }
    while i < count
        invariant
            n == b@.len(),
            w is None ==> forall|d: DirModel| #[trigger] dir_bytes(d) != b@,
            pow256(8) == 0x1_0000_0000_0000_0000,
            at_entries <= p <= n,
            i <= count,
            files@.len() == i,
            p == at_entries + fcbs_rec(fcbs_view(files@)).len(),
            at(b@, at_entries as int, fcbs_rec(fcbs_view(files@))),
            w is Some ==> {
                let d = w->0;
                &&& dir_bytes(d) == b@
                &&& count == d.files.len()
                &&& fcbs_view(files@) == d.files.take(i as int)
                &&& at(b@, at_entries as int, fcbs_rec(d.files))
            },
        decreases count - i,
    {
        let ghost fs = fcbs_view(files@);
        proof {
            if let Some(d) = w {
                lemma_fcbs_prefix(d.files, i + 1);
                let t1 = d.files.take(i + 1);
                assert(t1.drop_last() =~= d.files.take(i as int));
                lemma_at_split(b@, at_entries as int, fcbs_rec(t1), fcbs_rec(d.files).subrange(fcbs_rec(t1).len() as int, fcbs_rec(d.files).len() as int));
                assert(fcbs_rec(t1) + fcbs_rec(d.files).subrange(fcbs_rec(t1).len() as int, fcbs_rec(d.files).len() as int) =~= fcbs_rec(d.files));
                assert(fcbs_rec(t1) == fcbs_rec(t1.drop_last()) + fcb_rec(t1.last()));
                lemma_at_split(b@, at_entries as int, fcbs_rec(t1.drop_last()), fcb_rec(t1.last()));
                assert(t1.last() == d.files[i as int]);
                assert(at(b@, p as int, fcb_rec(d.files[i as int])));
            }
        }
        let (f, q) = match read_fcb(b, p) {
            Some(x) => x,
            None => return Err(FsError::CorruptDirectory),
        };
        proof {
            if let Some(d) = w {
                lemma_fcb_rec_unique(b@, p as int, f@, d.files[i as int]);
            }
        }
        files.push(f);
        proof {
            let nfs = fcbs_view(files@);
            assert(nfs.drop_last() =~= fs);
            assert(nfs.last() == f@);
            lemma_at_split(b@, at_entries as int, fcbs_rec(fs), fcb_rec(f@));
            if let Some(d) = w {
                assert(nfs =~= d.files.take(i + 1));
            }
        }
        p = q;
        i = i + 1;
    }
    if p != n {
        proof {
            if let Some(d) = w {
                assert(fcbs_view(files@) =~= d.files);
            }
        }
        return Err(FsError::CorruptDirectory);
    }
    let d = Directory { name, files };
    proof {
        let a = str_rec(d@.name);
        let c = num_rec(count as nat);
        lemma_le_len(count as nat, 8);
        assert(d@.files.len() == count);
        lemma_at_split(b@, 0, a, c);
        lemma_at_split(b@, 0, a + c, fcbs_rec(d@.files));
        assert(b@.subrange(0, b@.len() as int) =~= b@);
    }
    Ok(d)
}

/// The stored form of a directory with only its own two entries is as long
/// whatever blocks those entries name.
pub proof fn lemma_two_entry_len(name: Seq<char>, a: Seq<FcbModel>, b: Seq<FcbModel>)
    requires
        a.len() == 2,
        b.len() == 2,
        a[0].name == b[0].name,
        a[1].name == b[1].name,
    ensures
        dir_bytes(DirModel { name, files: a }).len() == dir_bytes(DirModel { name, files: b }).len(),
{
    assert forall|f: FcbModel| #[trigger] fcb_rec(f).len() == str_rec(f.name).len() + 24 by {
        lemma_le_len(type_tag(f.file_type), 8);
        lemma_le_len(f.first_cluster as nat, 8);
        lemma_le_len(f.length as nat, 8);
    }
    reveal_with_fuel(fcbs_rec, 3);
    assert(a.drop_last().drop_last().len() == 0);
    assert(b.drop_last().drop_last().len() == 0);
    assert(a.drop_last().last() == a[0]);
    assert(b.drop_last().last() == b[0]);
    assert(fcbs_rec(a).len() == fcb_rec(a[0]).len() + fcb_rec(a[1]).len());
    assert(fcbs_rec(b).len() == fcb_rec(b[0]).len() + fcb_rec(b[1]).len());
    assert(fcb_rec(a[0]).len() == fcb_rec(b[0]).len());
    assert(fcb_rec(a[1]).len() == fcb_rec(b[1]).len());
}

/// The stored form of a directory is as long whatever the block and length
/// of its last entry.
pub proof fn lemma_last_entry_len(name: Seq<char>, fs: Seq<FcbModel>, x: FcbModel, y: FcbModel)
    requires
        x.name == y.name,
    ensures
        dir_bytes(DirModel { name, files: fs.push(x) }).len() == dir_bytes(
            DirModel { name, files: fs.push(y) },
        ).len(),
{
    assert(fs.push(x).drop_last() =~= fs);
    assert(fs.push(y).drop_last() =~= fs);
    lemma_le_len(type_tag(x.file_type), 8);
    lemma_le_len(x.first_cluster as nat, 8);
    lemma_le_len(x.length as nat, 8);
    lemma_le_len(type_tag(y.file_type), 8);
    lemma_le_len(y.first_cluster as nat, 8);
    lemma_le_len(y.length as nat, 8);
}

} // verus!
