//! The relative path resolver: lexical computation on '/'-separated
//! components, from the directory holding the referencing chapter to the
//! file of the defining chapter.

use vstd::prelude::*;

use crate::bytes::{append, bytes_eq, copy_range};
use crate::model::{common_from, dotdot, join_sep, rel_path_view, sep_pos, split_from};

verus! {

/// The byte sequences that a list of byte vectors stands for.
pub open spec fn comps_view(v: Seq<Vec<u8>>) -> Seq<Seq<u8>> {
    v.map_values(|x: Vec<u8>| x@)
}

/// Splits `s[start..]` at `sep` into its components.
fn split_bytes_from(s: &Vec<u8>, sep: u8, start: usize) -> (out: Vec<Vec<u8>>)
    requires
        start <= s.len(),
    ensures
        comps_view(out@) == split_from(s@, sep, start as int),
    decreases s.len() - start,
{
    let mut k: usize = start;
    while k < s.len() && s[k] != sep
        invariant
            start <= k <= s.len(),
            sep_pos(s@, sep, start as int) == sep_pos(s@, sep, k as int),
        decreases s.len() - k,
    {
        k = k + 1;
    }
    if k < s.len() {
        let mut rest = split_bytes_from(s, sep, k + 1);
        let first = copy_range(s, start, k);
        rest.insert(0, first);
        proof {
            assert(comps_view(rest@) =~= seq![s@.subrange(start as int, k as int)]
                + split_from(s@, sep, k as int + 1));
        }
        rest
    } else {
        let mut out: Vec<Vec<u8>> = Vec::new();
        out.push(copy_range(s, start, s.len()));
        proof {
            assert(comps_view(out@) =~= seq![s@.subrange(start as int, s@.len() as int)]);
        }
        out
    }
}

/// Splits `s` at `sep` into its components.
pub fn split_bytes(s: &Vec<u8>, sep: u8) -> (out: Vec<Vec<u8>>)
    ensures
        comps_view(out@) == split_from(s@, sep, 0),
{
    split_bytes_from(s, sep, 0)
}

/// Joins the components from `i` on with `sep` between each two.
fn join_bytes_from(cs: &Vec<Vec<u8>>, sep: u8, i: usize) -> (out: Vec<u8>)
    requires
        i <= cs.len(),
    ensures
        out@ == join_sep(comps_view(cs@).skip(i as int), sep),
    decreases cs.len() - i,
{
    if i == cs.len() {
        let out: Vec<u8> = Vec::new();
        proof {
            assert(comps_view(cs@).skip(i as int) =~= Seq::<Seq<u8>>::empty());
        }
        out
    } else if i + 1 == cs.len() {
        let out = copy_range(&cs[i], 0, cs[i].len());
        proof {
            assert(comps_view(cs@).skip(i as int) =~= seq![cs@[i as int]@]);
            assert(out@ =~= cs@[i as int]@);
        }
        out
    } else {
        let mut out = copy_range(&cs[i], 0, cs[i].len());
        out.push(sep);
        let rest = join_bytes_from(cs, sep, i + 1);
        append(&mut out, &rest);
        proof {
            let v = comps_view(cs@).skip(i as int);
            assert(v.drop_first() =~= comps_view(cs@).skip(i as int + 1));
            assert(v[0] == cs@[i as int]@);
            assert(v.len() >= 2);
            assert(out@ =~= v[0] + seq![sep] + join_sep(v.drop_first(), sep));
        }
        out
    }
}

/// Are the two vectors of numbers equal?
pub fn usize_vec_eq(a: &Vec<usize>, b: &Vec<usize>) -> (r: bool)
    ensures
        r == (a@ == b@),
{
    if a.len() != b.len() {
        return false;
    }
    let mut k: usize = 0;
    while k < a.len()
        invariant
            k <= a.len(),
            a.len() == b.len(),
            forall|q: int| 0 <= q < k ==> a@[q] == b@[q],
        decreases a.len() - k,
    {
        if a[k] != b[k] {
            return false;
        }
        k = k + 1;
    }
    proof {
        assert(a@ =~= b@);
    }
    true
}

/// The relative path from the directory holding `chap_path` to the file
/// `path_to_ref`; empty when the two paths are the same file.
pub fn compute_rel_path(chap_path: &Vec<u8>, path_to_ref: &Vec<u8>) -> (out: Vec<u8>)
    ensures
        out@ == rel_path_view(chap_path@, path_to_ref@),
{
    if bytes_eq(chap_path, path_to_ref) {
        let out: Vec<u8> = Vec::new();
        return out;
    }
    let mut d = split_bytes(chap_path, 47);
    proof {
        assert(split_from(chap_path@, 47u8, 0).len() >= 1);
    }
    let _last = d.pop();
    let t = split_bytes(path_to_ref, 47);
    let ghost dv = comps_view(d@);
    let ghost tv = comps_view(t@);
    proof {
        assert(dv =~= split_from(chap_path@, 47u8, 0).drop_last());
    }
    let mut c: usize = 0;
    while c < d.len() && c < t.len() && bytes_eq(&d[c], &t[c])
        invariant
            c <= d.len(),
            c <= t.len(),
            dv == comps_view(d@),
            tv == comps_view(t@),
            common_from(dv, tv, 0) == common_from(dv, tv, c as int),
        decreases d.len() - c,
    {
        c = c + 1;
    }
    proof {
        assert(common_from(dv, tv, c as int) == c as int);
    }
    let mut comps: Vec<Vec<u8>> = Vec::new();
    let mut k: usize = c;
    while k < d.len()
        invariant
            c <= k <= d.len(),
            comps@.len() == k - c,
            forall|q: int| 0 <= q < comps@.len() ==> (#[trigger] comps@[q])@ == dotdot(),
        decreases d.len() - k,
    {
        let mut dd: Vec<u8> = Vec::new();
        dd.push(46);
        dd.push(46);
        proof {
            assert(dd@ =~= dotdot());
        }
        comps.push(dd);
        k = k + 1;
    }
    let ghost ups = (d@.len() - c) as int;
    let mut m: usize = c;
    while m < t.len()
        invariant
            c <= m <= t.len(),
            0 <= ups,
            ups == d@.len() - c,
            tv == comps_view(t@),
            comps@.len() == ups + m - c,
            forall|q: int| 0 <= q < ups ==> (#[trigger] comps@[q])@ == dotdot(),
            forall|q: int| ups <= q < comps@.len() ==> (#[trigger] comps@[q])@ == tv[c + q
                - ups],
        decreases t.len() - m,
    {
        let ghost comps0 = comps@;
        comps.push(copy_range(&t[m], 0, t[m].len()));
        m = m + 1;
        proof {
            assert forall|q: int| ups <= q < comps@.len() implies (#[trigger] comps@[q])@
                == tv[c + q - ups] by {
                if q < comps@.len() - 1 {
                    assert(comps@.len() == comps0.len() + 1);
                    assert(comps@[q] == comps0[q]);
                } else {
                    assert((comps@[q])@ == t@[m - 1]@);
                    assert(tv[m - 1] == t@[m - 1]@);
                }
            }
        }
    }
    let out = join_bytes_from(&comps, 47, 0);
    proof {
        assert(comps_view(comps@).skip(0) =~= comps_view(comps@));
        assert(comps_view(comps@) =~~= Seq::new((dv.len() - c) as nat, |q: int| dotdot())
            + tv.skip(c as int));
    }
    out
}

} // verus!
