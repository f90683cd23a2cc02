//! Unix path names as `std::path::Path` reads them: file name, extension, join.

use vstd::prelude::*;

use crate::text::{find_char, slice_chars};

verus! {

/// The pieces of `p` between `/` separators (empty pieces included).
pub open spec fn segments(p: Seq<char>) -> Seq<Seq<char>>
    decreases p.len(),
{
    match find_char(p, '/') {
        Some(i) => {
            if i < p.len() {
                seq![p.take(i as int)] + segments(p.skip(i as int + 1))
            } else {
                seq![p]
            }
        },
        None => seq![p],
    }
}

/// A piece that names something: neither empty nor `.`.
pub open spec fn is_normal(seg: Seq<char>) -> bool {
    seg.len() > 0 && seg != seq!['.']
}

/// The last piece of `segs` that names something.
pub open spec fn last_normal(segs: Seq<Seq<char>>) -> Option<Seq<char>>
    decreases segs.len(),
{
    if segs.len() == 0 {
        None
    } else if is_normal(segs.last()) {
        Some(segs.last())
    } else {
        last_normal(segs.drop_last())
    }
}

/// `Path::file_name`: the last component of `p`, unless it is `..` or there
/// is none.
pub open spec fn file_name(p: Seq<char>) -> Option<Seq<char>> {
    match last_normal(segments(p)) {
        Some(c) => if c == seq!['.', '.'] {
            None
        } else {
            Some(c)
        },
        None => None,
    }
}

/// Index of the last `.` in `s`.
pub open spec fn last_dot(s: Seq<char>) -> Option<nat>
    decreases s.len(),
{
    if s.len() == 0 {
        None
    } else if s.last() == '.' {
        Some((s.len() - 1) as nat)
    } else {
        last_dot(s.drop_last())
    }
}

/// `Path::extension` of a file name: what follows its last `.`, where that
/// dot is not the first character.
pub open spec fn name_extension(name: Seq<char>) -> Option<Seq<char>> {
    match last_dot(name) {
        Some(i) => if i == 0 {
            None
        } else {
            Some(name.skip(i as int + 1))
        },
        None => None,
    }
}

/// `Path::extension` of a path.
pub open spec fn extension(p: Seq<char>) -> Option<Seq<char>> {
    match file_name(p) {
        Some(n) => name_extension(n),
        None => None,
    }
}

/// Splits `p` at each `/`.
fn split_segments(p: &[char]) -> (r: Vec<Vec<char>>)
    ensures
        r@.len() == segments(p@).len(),
        forall|i: int| 0 <= i < r@.len() ==> #[trigger] r@[i]@ == segments(p@)[i],
{
    let mut out: Vec<Vec<char>> = Vec::new();
    let ghost mut out_v: Seq<Seq<char>> = seq![];
    let mut start: usize = 0;
    let mut i: usize = 0;
    assert(p@.skip(0) =~= p@);
    assert(out_v + segments(p@) =~= segments(p@));
    while i < p.len()
        invariant
            start <= i <= p.len(),
            out@.len() == out_v.len(),
            forall|k: int| 0 <= k < out@.len() ==> #[trigger] out@[k]@ == out_v[k],
            forall|j: int| start <= j < i ==> p@[j] != '/',
            segments(p@) == out_v + segments(p@.skip(start as int)),
        decreases p.len() - i,
    {
        if p[i] == '/' {
            proof {
                let t = p@.skip(start as int);
                assert forall|j: int| 0 <= j < i - start implies t[j] != '/' by {
                    assert(t[j] == p@[start + j]);
                }
                assert(t[i - start] == '/');
                lemma_find_char_at_slash(t, (i - start) as int);
                assert(t.take(i - start) =~= p@.subrange(start as int, i as int));
                assert(t.skip(i - start + 1) =~= p@.skip(i + 1));
                assert(segments(t) == seq![t.take(i - start)] + segments(t.skip(i - start + 1)));
            }
            let seg = slice_chars(p, start, i);
            proof {
                out_v = out_v.push(seg@);
            }
            out.push(seg);
            start = i + 1;
        }
        i = i + 1;
    }
    proof {
        let t = p@.skip(start as int);
        assert forall|j: int| 0 <= j < t.len() implies t[j] != '/' by {
            assert(t[j] == p@[start + j]);
        }
        lemma_find_char_none_slash(t);
        assert(t =~= p@.subrange(start as int, p.len() as int));
    }
    let seg = slice_chars(p, start, p.len());
    proof {
        out_v = out_v.push(seg@);
        assert(segments(p@) =~= out_v);
    }
    out.push(seg);
    out
}

proof fn lemma_find_char_at_slash(s: Seq<char>, i: int)
    requires
        0 <= i < s.len(),
        s[i] == '/',
        forall|j: int| 0 <= j < i ==> s[j] != '/',
    ensures
        find_char(s, '/') == Some(i as nat),
    decreases i,
{
    if i > 0 {
        lemma_find_char_at_slash(s.drop_first(), i - 1);
    }
}

proof fn lemma_find_char_none_slash(s: Seq<char>)
    requires
        forall|j: int| 0 <= j < s.len() ==> s[j] != '/',
    ensures
        find_char(s, '/') is None,
    decreases s.len(),
{
    if s.len() > 0 {
        lemma_find_char_none_slash(s.drop_first());
    }
}

fn normal_segment(seg: &[char]) -> (r: bool)
    ensures
        r == is_normal(seg@),
{
    if seg.len() == 0 {
        return false;
    }
    if seg.len() == 1 && seg[0] == '.' {
        assert(seg@ =~= seq!['.']);
        return false;
    }
    assert(seg@ != seq!['.']) by {
        if seg@.len() == 1 {
            assert(seg@[0] != seq!['.'][0]);
        }
    }
    true
}

/// `Path::file_name` of `p`.
pub fn path_file_name(p: &[char]) -> (r: Option<Vec<char>>)
    ensures
        r matches Some(n) ==> file_name(p@) == Some(n@),
        r is None ==> file_name(p@) is None,
{
    let segs = split_segments(p);
    let ghost sv = segments(p@);
    let mut i: usize = segs.len();
    assert(sv.take(sv.len() as int) =~= sv);
    while i > 0
        invariant
            i <= segs@.len(),
            segs@.len() == sv.len(),
            sv == segments(p@),
            forall|k: int| 0 <= k < segs@.len() ==> #[trigger] segs@[k]@ == sv[k],
            last_normal(sv) == last_normal(sv.take(i as int)),
        decreases i,
    {
        assert(sv.take(i as int).drop_last() =~= sv.take(i - 1));
        assert(sv.take(i as int).last() == segs@[i - 1]@);
        if normal_segment(segs[i - 1].as_slice()) {
            let seg = &segs[i - 1];
            if seg.len() == 2 && seg[0] == '.' && seg[1] == '.' {
                assert(seg@ =~= seq!['.', '.']);
                return None;
            }
            assert(seg@ != seq!['.', '.']) by {
                if seg@.len() == 2 {
                    if seg@[0] != '.' {
                        assert(seg@[0] != seq!['.', '.'][0]);
                    } else {
                        assert(seg@[1] != seq!['.', '.'][1]);
                    }
                }
            }
            let mut n: Vec<char> = Vec::new();
            let mut k: usize = 0;
            while k < seg.len()
                invariant
                    k <= seg@.len(),
                    n@ == seg@.take(k as int),
                decreases seg@.len() - k,
            {
                assert(seg@.take(k + 1) =~= seg@.take(k as int).push(seg@[k as int]));
                n.push(seg[k]);
                k = k + 1;
            }
            assert(seg@.take(k as int) =~= seg@);
            return Some(n);
        }
        i = i - 1;
    }
    assert(sv.take(0) =~= Seq::<Seq<char>>::empty());
    None
}

/// Index of the last `.` in `s`.
fn find_last_dot(s: &[char]) -> (r: Option<usize>)
    ensures
        r matches Some(i) ==> last_dot(s@) == Some(i as nat) && i < s@.len(),
        r is None ==> last_dot(s@) is None,
{
    let mut i: usize = s.len();
    assert(s@.take(s@.len() as int) =~= s@);
    while i > 0
        invariant
            i <= s@.len(),
            last_dot(s@) == last_dot(s@.take(i as int)),
        decreases i,
    {
        assert(s@.take(i as int).drop_last() =~= s@.take(i - 1));
        if s[i - 1] == '.' {
            return Some(i - 1);
        }
        i = i - 1;
    }
    assert(s@.take(0) =~= Seq::<char>::empty());
    None
}

/// `Path::extension` of `p`.
pub fn path_extension(p: &[char]) -> (r: Option<Vec<char>>)
    ensures
        r matches Some(e) ==> extension(p@) == Some(e@),
        r is None ==> extension(p@) is None,
{
    match path_file_name(p) {
        None => None,
        Some(n) => match find_last_dot(n.as_slice()) {
            None => None,
            Some(i) => {
                if i == 0 {
                    None
                } else {
                    let len = n.len();
                    assert(i < len);
                    let e = slice_chars(n.as_slice(), i + 1, len);
                    assert(e@ =~= n@.skip(i as int + 1));
                    Some(e)
                }
            },
        },
    }
}

} // verus!
