//! Parsing a chapter's section-number string into its numeric components
//! and rendering the printed prefix of the numbering pass.

use vstd::prelude::*;

use crate::bytes::{copy_range, push_dec};
use crate::model::{
    all_digits, comp_vals, dec_rep, dec_val, depth_comps, is_digit, render_ccn,
    secnum_comps, trim_dots, valid_comp, valid_secnum,
};
use crate::path::{comps_view, split_bytes};

verus! {

/// A longer digit string never has a smaller value.
proof fn lemma_dec_val_prefix(s: Seq<u8>, k: int)
    requires
        all_digits(s),
        0 <= k <= s.len(),
    ensures
        dec_val(s) >= dec_val(s.subrange(0, k)),
    decreases s.len() - k,
{
    if k < s.len() {
        assert(s.subrange(0, k + 1).drop_last() =~= s.subrange(0, k));
        assert(dec_val(s.subrange(0, k + 1)) == dec_val(s.subrange(0, k)) * 10 + (s[k]
            - 48) as nat);
        assert(dec_val(s.subrange(0, k)) * 10 >= dec_val(s.subrange(0, k)));
        lemma_dec_val_prefix(s, k + 1);
    } else {
        assert(s.subrange(0, k) =~= s);
    }
}

/// Parses a decimal component; `None` exactly when it is empty, holds a
/// non-digit, or does not fit the machine.
fn parse_usize(v: &Vec<u8>) -> (r: Option<usize>)
    ensures
        match r {
            Some(x) => valid_comp(v@) && x as nat == dec_val(v@),
            None => !valid_comp(v@),
        },
{
    if v.len() == 0 {
        return None;
    }
    let mut k: usize = 0;
    while k < v.len()
        invariant
            k <= v.len(),
            forall|q: int| 0 <= q < k ==> is_digit(#[trigger] v@[q]),
        decreases v.len() - k,
    {
        if v[k] < 48 || v[k] > 57 {
            return None;
        }
        k = k + 1;
    }
    let mut val: usize = 0;
    let mut m: usize = 0;
    while m < v.len()
        invariant
            m <= v.len(),
            all_digits(v@),
            val as nat == dec_val(v@.subrange(0, m as int)),
            val <= usize::MAX,
        decreases v.len() - m,
    {
        let d = v[m] - 48;
        if val > (usize::MAX - d as usize) / 10 {
            proof {
                assert(v@.subrange(0, m as int + 1).drop_last() =~= v@.subrange(0, m as int));
                assert(dec_val(v@.subrange(0, m as int + 1)) == (val as nat) * 10 + d as nat);
                assert((val as nat) * 10 + d as nat > usize::MAX) by (nonlinear_arith)
                    requires
                        val > (usize::MAX - d as usize) / 10,
                        0 <= d < 10,
                ;
                lemma_dec_val_prefix(v@, m as int + 1);
            }
            return None;
        }
        proof {
            assert((val as nat) * 10 + d as nat <= usize::MAX) by (nonlinear_arith)
                requires
                    val <= (usize::MAX - d as usize) / 10,
                    0 <= d < 10,
            ;
            assert(v@.subrange(0, m as int + 1).drop_last() =~= v@.subrange(0, m as int));
        }
        val = val * 10 + d as usize;
        m = m + 1;
    }
    proof {
        assert(v@.subrange(0, v@.len() as int) =~= v@);
    }
    Some(val)
}

/// Parses a section-number string into its first `depth` component values,
/// padded with zeros; `None` exactly when some component is unparseable.
pub fn parse_secnum(s: &Vec<u8>, depth: usize) -> (r: Option<Vec<usize>>)
    ensures
        match r {
            Some(v) => valid_secnum(s@) && v@.len() == depth && v@.map_values(
                |x: usize| x as nat,
            ) == depth_comps(s@, depth as int),
            None => !valid_secnum(s@),
        },
{
    let mut e: usize = s.len();
    proof {
        assert(s@.subrange(0, s@.len() as int) =~= s@);
    }
    while e > 0 && s[e - 1] == 46
        invariant
            e <= s.len(),
            trim_dots(s@) == trim_dots(s@.subrange(0, e as int)),
        decreases e,
    {
        proof {
            assert(s@.subrange(0, e as int).drop_last() =~= s@.subrange(0, e as int - 1));
        }
        e = e - 1;
    }
    proof {
        assert(trim_dots(s@.subrange(0, e as int)) == s@.subrange(0, e as int));
    }
    let tr = copy_range(s, 0, e);
    let comps = split_bytes(&tr, 46);
    proof {
        assert(comps_view(comps@) == secnum_comps(s@));
    }
    let mut vals: Vec<usize> = Vec::new();
    let mut k: usize = 0;
    while k < comps.len()
        invariant
            k <= comps.len(),
            vals@.len() == k,
            comps_view(comps@) == secnum_comps(s@),
            comps@.len() == secnum_comps(s@).len(),
            forall|q: int| 0 <= q < k ==> valid_comp(#[trigger] secnum_comps(s@)[q]),
            forall|q: int| 0 <= q < k ==> (#[trigger] vals@[q]) as nat == dec_val(
                secnum_comps(s@)[q],
            ),
        decreases comps.len() - k,
    {
        proof {
            assert(comps@[k as int]@ == secnum_comps(s@)[k as int]);
        }
        match parse_usize(&comps[k]) {
            None => {
                proof {
                    assert(!valid_comp(secnum_comps(s@)[k as int]));
                }
                return None;
            },
            Some(x) => {
                vals.push(x);
            },
        }
        k = k + 1;
    }
    let mut pv: Vec<usize> = Vec::new();
    let mut q: usize = 0;
    while q < depth
        invariant
            q <= depth,
            pv@.len() == q,
            vals@.len() == secnum_comps(s@).len(),
            forall|z: int| 0 <= z < vals@.len() ==> (#[trigger] vals@[z]) as nat == dec_val(
                secnum_comps(s@)[z],
            ),
            forall|z: int| 0 <= z < q ==> (#[trigger] pv@[z]) as nat == (if z
                < comp_vals(s@).len() {
                comp_vals(s@)[z]
            } else {
                0nat
            }),
        decreases depth - q,
    {
        if q < vals.len() {
            let x = vals[q];
            pv.push(x);
        } else {
            pv.push(0);
        }
        q = q + 1;
    }
    proof {
        assert(pv@.map_values(|x: usize| x as nat) =~= depth_comps(s@, depth as int));
    }
    Some(pv)
}

/// Renders the chapter-number vector as the printed prefix "1.2.".
pub fn render_prefix(ccn: &Vec<usize>) -> (out: Vec<u8>)
    ensures
        out@ == render_ccn(ccn@.map_values(|x: usize| x as nat)),
{
    let ghost mv = ccn@.map_values(|x: usize| x as nat);
    let mut out: Vec<u8> = Vec::new();
    let mut k: usize = 0;
    proof {
        assert(mv.take(0) =~= Seq::<nat>::empty());
    }
    while k < ccn.len()
        invariant
            k <= ccn.len(),
            mv == ccn@.map_values(|x: usize| x as nat),
            out@ == render_ccn(mv.take(k as int)),
        decreases ccn.len() - k,
    {
        push_dec(&mut out, ccn[k]);
        out.push(46);
        k = k + 1;
        proof {
            assert(mv.take(k as int).drop_last() =~= mv.take(k as int - 1));
            assert(mv.take(k as int).last() == mv[k as int - 1]);
            assert(out@ =~= render_ccn(mv.take(k as int - 1)) + dec_rep(mv[k as int - 1])
                + seq![46u8]);
        }
    }
    proof {
        assert(mv.take(ccn@.len() as int) =~= mv);
    }
    out
}

} // verus!
