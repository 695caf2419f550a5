use vstd::prelude::*;
use vstd::string::StrSliceExecFns;

verus! {

/// The names of a path whose remaining characters are `p`, where `cur`
/// holds the characters read so far of the name being read.
pub open spec fn segs(p: Seq<char>, cur: Seq<char>) -> Seq<Seq<char>>
    decreases p.len(),
{
    if p.len() == 0 {
        if cur.len() > 0 {
            seq![cur]
        } else {
            Seq::empty()
        }
    } else if p[0] == '/' {
        (if cur.len() > 0 {
            seq![cur]
        } else {
            Seq::empty()
        }) + segs(p.drop_first(), Seq::empty())
    } else {
        segs(p.drop_first(), cur.push(p[0]))
    }
}

/// The names of a path: the pieces between `/` separators, empty ones left out.
pub open spec fn path_segments(p: Seq<char>) -> Seq<Seq<char>> {
    segs(p, Seq::empty())
}

/// What a run of strings stands for.
pub open spec fn strings_view(v: Seq<String>) -> Seq<Seq<char>> {
    v.map_values(|s: String| s@)
}

/// The names of `path`, in order.
pub fn split_path(path: &str) -> (r: Vec<String>)
    ensures
        strings_view(r@) == path_segments(path@),
{
    let n = path.unicode_len();
    let mut out: Vec<String> = Vec::new();
    let mut start: usize = 0;
    let mut i: usize = 0;
    assert(path@.subrange(0, n as int) =~= path@);
    assert(path@.subrange(0, 0) =~= Seq::<char>::empty());
    while i < n
        invariant
            n == path@.len(),
            start <= i <= n,
            path_segments(path@) == strings_view(out@) + segs(
                path@.subrange(i as int, n as int),
                path@.subrange(start as int, i as int),
            ),
        decreases n - i,
    {
        let c = path.get_char(i);
        let ghost rest = path@.subrange(i as int, n as int);
        let ghost cur = path@.subrange(start as int, i as int);
        assert(rest[0] == c);
        assert(rest.drop_first() =~= path@.subrange(i + 1, n as int));
        let ghost before = out@;
        if c == '/' {
            if i > start {
                let piece = path.substring_char(start, i);
                out.push(piece.to_owned());
                assert(strings_view(out@) =~= strings_view(before) + seq![cur]);
            } else {
                assert(strings_view(out@) =~= strings_view(before) + Seq::<Seq<char>>::empty());
            }
            assert(path@.subrange(i + 1, i + 1) =~= Seq::<char>::empty());
            start = i + 1;
        } else {
            assert(cur.push(c) =~= path@.subrange(start as int, i + 1));
        }
        i = i + 1;
    }
    let ghost cur = path@.subrange(start as int, n as int);
    let ghost before = out@;
    assert(path@.subrange(n as int, n as int) =~= Seq::<char>::empty());
    if n > start {
        let piece = path.substring_char(start, n);
        out.push(piece.to_owned());
        assert(strings_view(out@) =~= strings_view(before) + seq![cur]);
    } else {
        assert(strings_view(out@) =~= strings_view(before) + Seq::<Seq<char>>::empty());
    }
    out
}

} // verus!
