//! The reference pass over one chapter's content: every reference
//! placeholder becomes a link to its equation, or the broken-reference
//! marker plus a warning when the label is unknown.

use vstd::prelude::*;

use crate::bytes::{append, append_range, copy_range};
use crate::model::{
    broken_ref, dbrace_end, eqref_token, is_ws, ref_match_at, ref_token_at,
    rewrite_refs_at, trim_ws, ws_end, WarningV,
};
use crate::path::compute_rel_path;
use crate::table::{warns_view, LabelTable, Warning};

verus! {

/// Appends "**[??]**" to `out`.
fn push_broken_ref(out: &mut Vec<u8>)
    ensures
        final(out)@ == old(out)@ + broken_ref(),
{
    out.push(42);
    out.push(42);
    out.push(91);
    out.push(63);
    out.push(63);
    out.push(93);
    out.push(42);
    out.push(42);
    assert(final(out)@ =~= old(out)@ + broken_ref());
}

/// Is `c` one of the whitespace bytes the reference grammar skips?
fn is_ws_byte(c: u8) -> (r: bool)
    ensures
        r == is_ws(c),
{
    c == 32 || c == 9 || c == 10 || c == 11 || c == 12 || c == 13
}

/// Does the reference placeholder token "{{eqref:" start at `i`?
fn ref_token_check(s: &Vec<u8>, i: usize) -> (b: bool)
    requires
        i <= s.len(),
    ensures
        b == ref_token_at(s@, i as int),
{
    let b = s.len() >= 8 && i <= s.len() - 8 && s[i] == 123 && s[i + 1] == 123 && s[i + 2]
        == 101 && s[i + 3] == 113 && s[i + 4] == 114 && s[i + 5] == 101 && s[i + 6] == 102
        && s[i + 7] == 58;
    proof {
        if b {
            assert(s@.subrange(i as int, i as int + 8) =~= eqref_token());
        } else if 0 <= i && i + 8 <= s@.len() {
            let ss = s@.subrange(i as int, i as int + 8);
            if ss == eqref_token() {
                assert(s@[i as int] == ss[0] && s@[i as int + 1] == ss[1] && s@[i as int + 2]
                    == ss[2] && s@[i as int + 3] == ss[3] && s@[i as int + 4] == ss[4] && s@[
                    i as int + 5] == ss[5] && s@[i as int + 6] == ss[6] && s@[i as int + 7]
                    == ss[7]);
            }
        }
    }
    b
}

/// Rewrites every reference placeholder in `s` against the read-only label
/// table, exactly as the model `rewrite_refs_at` says.
pub fn find_and_replace_refs(
    s: &Vec<u8>,
    chap_path: &Vec<u8>,
    refs: &LabelTable,
    warns: &mut Vec<Warning>,
) -> (out: Vec<u8>)
    ensures
        ({
            let r = rewrite_refs_at(s@, 0, chap_path@, refs@, warns_view(old(warns)@));
            &&& out@ == r.out
            &&& warns_view(final(warns)@) == r.warns
        }),
{
    let ghost r0 = rewrite_refs_at(s@, 0, chap_path@, refs@, warns_view(warns@));
    let mut out: Vec<u8> = Vec::new();
    let mut i: usize = 0;
    proof {
        assert(Seq::<u8>::empty() + r0.out =~= r0.out);
    }
    while i < s.len()
        invariant
            i <= s.len(),
            r0 == rewrite_refs_at(s@, 0, chap_path@, refs@, warns_view(old(warns)@)),
            ({
                let ri = rewrite_refs_at(s@, i as int, chap_path@, refs@, warns_view(warns@));
                r0.out == out@ + ri.out && r0.warns == ri.warns
            }),
        decreases s.len() - i,
    {
        let ghost ri = rewrite_refs_at(s@, i as int, chap_path@, refs@, warns_view(warns@));
        let mut matched: Option<(usize, usize)> = None;
        if ref_token_check(s, i) {
            let mut w: usize = i + 8;
            while w < s.len() && is_ws_byte(s[w])
                invariant
                    i + 8 <= w <= s.len(),
                    ws_end(s@, i as int + 8) == ws_end(s@, w as int),
                decreases s.len() - w,
            {
                w = w + 1;
            }
            proof {
                assert(ws_end(s@, w as int) == w as int);
            }
            let mut j: usize = w;
            while s.len() - j > 1 && !(s[j] == 125 && s[j + 1] == 125) && s[j] != 10
                invariant
                    w <= j <= s.len(),
                    dbrace_end(s@, w as int) == dbrace_end(s@, j as int),
                decreases s.len() - j,
            {
                j = j + 1;
            }
            if s.len() - j > 1 && s[j] == 125 && s[j + 1] == 125 {
                matched = Some((w, j));
                proof {
                    assert(dbrace_end(s@, j as int) == Some(j as int));
                }
            } else {
                proof {
                    assert(dbrace_end(s@, j as int).is_none());
                    assert(!ref_match_at(s@, i as int));
                }
            }
        }
        match matched {
            Some((w, j)) => {
                proof {
                    assert(ref_match_at(s@, i as int));
                }
                let mut j2: usize = j;
                while j2 > w && is_ws_byte(s[j2 - 1])
                    invariant
                        w <= j2 <= j <= s.len(),
                        trim_ws(s@.subrange(w as int, j as int)) == trim_ws(s@.subrange(
                            w as int,
                            j2 as int,
                        )),
                    decreases j2,
                {
                    proof {
                        assert(s@.subrange(w as int, j2 as int).drop_last() =~= s@.subrange(
                            w as int,
                            j2 as int - 1,
                        ));
                    }
                    j2 = j2 - 1;
                }
                proof {
                    if j2 == w {
                        assert(s@.subrange(w as int, j2 as int) =~= Seq::<u8>::empty());
                    }
                    assert(trim_ws(s@.subrange(w as int, j2 as int)) == s@.subrange(
                        w as int,
                        j2 as int,
                    ));
                }
                let ghost lblv = trim_ws(s@.subrange(w as int, j as int));
                let lbl = copy_range(s, w, j2);
                match refs.get(&lbl) {
                    Some(info) => {
                        out.push(91);
                        out.push(40);
                        append(&mut out, &info.num);
                        out.push(41);
                        out.push(93);
                        out.push(40);
                        let rel = compute_rel_path(chap_path, &info.path);
                        append(&mut out, &rel);
                        out.push(35);
                        append_range(&mut out, s, w, j2);
                        out.push(41);
                    },
                    None => {
                        push_broken_ref(&mut out);
                        let ghost wv0 = warns_view(warns@);
                        warns.push(Warning::UnresolvedReference { label: lbl });
                        proof {
                            assert(warns_view(warns@) =~= wv0.push(
                                WarningV::UnresolvedReference { label: lblv },
                            ));
                        }
                    },
                }
                i = j + 2;
            },
            None => {
                out.push(s[i]);
                i = i + 1;
            },
        }
        proof {
            let rn = rewrite_refs_at(s@, i as int, chap_path@, refs@, warns_view(warns@));
            assert(out@ + rn.out =~= r0.out);
        }
    }
    proof {
        let rn = rewrite_refs_at(s@, i as int, chap_path@, refs@, warns_view(warns@));
        assert(rn.out =~= Seq::<u8>::empty());
        assert(out@ + rn.out =~= out@);
    }
    out
}

} // verus!
