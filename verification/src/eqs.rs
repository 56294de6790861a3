//! The numbering pass over one chapter's content: every equation
//! placeholder is rewritten into rendered markup, the running counter
//! advances, and labels are recorded in the label table.

use vstd::prelude::*;

use crate::bytes::{append, append_range, copy_range, push_dec};
use crate::model::{
    brace_end, dec_rep, eq_label_at, eq_token_at, htmlid_mid, htmlid_open, numeq_token,
    rewrite_eqs_at, tag_open, WarningV,
};
use crate::table::{warns_view, LabelInfo, LabelTable, Warning};

verus! {

/// Appends "\tag{" to `out`.
fn push_tag_open(out: &mut Vec<u8>)
    ensures
        final(out)@ == old(out)@ + tag_open(),
{
    out.push(92);
    out.push(116);
    out.push(97);
    out.push(103);
    out.push(123);
    assert(final(out)@ =~= old(out)@ + tag_open());
}

/// Appends "\htmlId{" to `out`.
fn push_htmlid_open(out: &mut Vec<u8>)
    ensures
        final(out)@ == old(out)@ + htmlid_open(),
{
    out.push(92);
    out.push(104);
    out.push(116);
    out.push(109);
    out.push(108);
    out.push(73);
    out.push(100);
    out.push(123);
    assert(final(out)@ =~= old(out)@ + htmlid_open());
}

/// Appends "}{} " to `out`.
fn push_htmlid_mid(out: &mut Vec<u8>)
    ensures
        final(out)@ == old(out)@ + htmlid_mid(),
{
    out.push(125);
    out.push(123);
    out.push(125);
    out.push(32);
    assert(final(out)@ =~= old(out)@ + htmlid_mid());
}

/// Does the equation placeholder token "{{numeq}}" start at `i`?
fn eq_token_check(s: &Vec<u8>, i: usize) -> (b: bool)
    requires
        i <= s.len(),
    ensures
        b == eq_token_at(s@, i as int),
{
    let b = s.len() >= 9 && i <= s.len() - 9 && s[i] == 123 && s[i + 1] == 123 && s[i + 2]
        == 110 && s[i + 3] == 117 && s[i + 4] == 109 && s[i + 5] == 101 && s[i + 6] == 113
        && s[i + 7] == 125 && s[i + 8] == 125;
    proof {
        if b {
            assert(s@.subrange(i as int, i as int + 9) =~= numeq_token());
        } else if 0 <= i && i + 9 <= s@.len() {
            let ss = s@.subrange(i as int, i as int + 9);
            if ss == numeq_token() {
                assert(s@[i as int] == ss[0] && s@[i as int + 1] == ss[1] && s@[i as int + 2]
                    == ss[2] && s@[i as int + 3] == ss[3] && s@[i as int + 4] == ss[4] && s@[
                    i as int + 5] == ss[5] && s@[i as int + 6] == ss[6] && s@[i as int + 7]
                    == ss[7] && s@[i as int + 8] == ss[8]);
            }
        }
    }
    b
}

/// Rewrites every equation placeholder in `s`, threading the counter and
/// recording labels, exactly as the model `rewrite_eqs_at` says.
pub fn find_and_replace_eqs(
    s: &Vec<u8>,
    prefix: &Vec<u8>,
    path: &Vec<u8>,
    refs: &mut LabelTable,
    ctr: &mut usize,
    warns: &mut Vec<Warning>,
) -> (out: Vec<u8>)
    requires
        *old(ctr) + s@.len() <= usize::MAX,
    ensures
        ({
            let r = rewrite_eqs_at(
                s@,
                0,
                prefix@,
                path@,
                old(refs)@,
                *old(ctr) as nat,
                warns_view(old(warns)@),
            );
            &&& out@ == r.out
            &&& final(refs)@ == r.table
            &&& *final(ctr) == r.ctr
            &&& warns_view(final(warns)@) == r.warns
        }),
{
    let ghost r0 = rewrite_eqs_at(
        s@,
        0,
        prefix@,
        path@,
        refs@,
        *ctr as nat,
        warns_view(warns@),
    );
    let mut out: Vec<u8> = Vec::new();
    let mut i: usize = 0;
    proof {
        assert(Seq::<u8>::empty() + r0.out =~= r0.out);
    }
    while i < s.len()
        invariant
            i <= s.len(),
            *ctr <= *old(ctr) + i,
            *old(ctr) + s@.len() <= usize::MAX,
            r0 == rewrite_eqs_at(
                s@,
                0,
                prefix@,
                path@,
                old(refs)@,
                *old(ctr) as nat,
                warns_view(old(warns)@),
            ),
            ({
                let ri = rewrite_eqs_at(
                    s@,
                    i as int,
                    prefix@,
                    path@,
                    refs@,
                    *ctr as nat,
                    warns_view(warns@),
                );
                r0.out == out@ + ri.out && r0.table == ri.table && r0.ctr == ri.ctr
                    && r0.warns == ri.warns
            }),
        decreases s.len() - i,
    {
        let ghost ri = rewrite_eqs_at(
            s@,
            i as int,
            prefix@,
            path@,
            refs@,
            *ctr as nat,
            warns_view(warns@),
        );
        if eq_token_check(s, i) {
            *ctr = *ctr + 1;
            let ghost n = *ctr as nat;
            let mut num: Vec<u8> = Vec::new();
            append(&mut num, prefix);
            push_dec(&mut num, *ctr);
            proof {
                assert(num@ =~= prefix@ + dec_rep(n));
            }
            // Is there a braced label right after the token?
            let mut label_end: Option<usize> = None;
            if s.len() - i >= 10 && s[i + 9] == 123 {
                let mut j: usize = i + 10;
                while j < s.len() && s[j] != 125 && s[j] != 10
                    invariant
                        i + 10 <= j <= s.len(),
                        brace_end(s@, i as int + 10) == brace_end(s@, j as int),
                    decreases s.len() - j,
                {
                    j = j + 1;
                }
                if j < s.len() && s[j] == 125 {
                    label_end = Some(j);
                    proof {
                        assert(brace_end(s@, j as int) == Some(j as int));
                    }
                }
            }
            proof {
                match label_end {
                    Some(j) => {
                        assert(eq_label_at(s@, i as int) == Some(j as int));
                    },
                    None => {
                        assert(eq_label_at(s@, i as int) == None::<int>);
                    },
                }
            }
            match label_end {
                Some(j) => {
                    let ghost lblv = s@.subrange(i as int + 10, j as int);
                    let label = copy_range(s, i + 10, j);
                    let dup = refs.contains(&label);
                    push_htmlid_open(&mut out);
                    append_range(&mut out, s, i + 10, j);
                    push_htmlid_mid(&mut out);
                    push_tag_open(&mut out);
                    append(&mut out, &num);
                    out.push(125);
                    if dup {
                        let ghost wv0 = warns_view(warns@);
                        let ghost numv = num@;
                        warns.push(Warning::DuplicateLabel { label, num });
                        proof {
                            assert(warns_view(warns@) =~= wv0.push(
                                WarningV::DuplicateLabel { label: lblv, num: numv },
                            ));
                        }
                    } else {
                        let p = copy_range(path, 0, path.len());
                        proof {
                            assert(p@ =~= path@);
                        }
                        refs.insert(label, LabelInfo { num, path: p });
                    }
                    i = j + 1;
                },
                None => {
                    push_tag_open(&mut out);
                    append(&mut out, &num);
                    out.push(125);
                    i = i + 9;
                },
            }
            proof {
                let rn = rewrite_eqs_at(
                    s@,
                    i as int,
                    prefix@,
                    path@,
                    refs@,
                    *ctr as nat,
                    warns_view(warns@),
                );
                assert(out@ + rn.out =~= r0.out);
            }
        } else {
            out.push(s[i]);
            i = i + 1;
            proof {
                let rn = rewrite_eqs_at(
                    s@,
                    i as int,
                    prefix@,
                    path@,
                    refs@,
                    *ctr as nat,
                    warns_view(warns@),
                );
                assert(out@ + rn.out =~= r0.out);
            }
        }
    }
    proof {
        let rn = rewrite_eqs_at(
            s@,
            i as int,
            prefix@,
            path@,
            refs@,
            *ctr as nat,
            warns_view(warns@),
        );
        assert(rn.out =~= Seq::<u8>::empty());
        assert(out@ + rn.out =~= out@);
    }
    out
}

} // verus!
