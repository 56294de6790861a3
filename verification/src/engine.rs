//! The chapter tree, the model of the two passes over it, and the verified
//! run: a pre-order numbering pass that threads the counter, the
//! chapter-number vector and the label table through the whole tree, then
//! a reference-resolution pass against the completed table.

use vstd::prelude::*;

use crate::bytes::copy_range;
use crate::eqs::find_and_replace_eqs;
use crate::model::{
    depth_comps, init_ccn, render_ccn, rewrite_eqs_at, rewrite_refs_at, valid_secnum,
    LabelInfoV, WarningV,
};
use crate::path::usize_vec_eq;
use crate::refs::find_and_replace_refs;
use crate::secnum::{parse_secnum, render_prefix};
use crate::table::{warns_view, LabelTable, Warning};
use crate::NumEqPreprocessor;

verus! {

broadcast use vstd::std_specs::vec::group_vec_axioms;

/// A node of the document tree. A chapter with no source path is a draft:
/// both passes leave its content alone, though its sub-chapters are still
/// visited.
pub struct Chapter {
    /// The source path, absent only for draft chapters.
    pub path: Option<Vec<u8>>,
    /// The rendered section number, e.g. "1.2.", absent for front matter.
    pub number: Option<Vec<u8>>,
    /// The raw text content, rewritten in place by both passes.
    pub content: Vec<u8>,
    /// The nested sub-chapters, in order.
    pub sub_items: Vec<Chapter>,
}

/// The root container of the ordered top-level chapters.
pub struct Book {
    pub sections: Vec<Chapter>,
}

/// The ghost mirror of a chapter, over byte sequences.
pub struct ChapterV {
    pub path: Option<Seq<u8>>,
    pub number: Option<Seq<u8>>,
    pub content: Seq<u8>,
    pub subs: Seq<ChapterV>,
}

/// The view of an optional byte vector.
pub open spec fn opt_view(o: Option<Vec<u8>>) -> Option<Seq<u8>> {
    match o {
        Some(v) => Some(v@),
        None => None,
    }
}

/// The ghost mirror of one chapter.
pub open spec fn view_ch(ch: Chapter) -> ChapterV
    decreases ch, 0int,
{
    ChapterV {
        path: opt_view(ch.path),
        number: opt_view(ch.number),
        content: ch.content@,
        subs: view_chs(ch.sub_items@, 0),
    }
}

/// The ghost mirrors of the chapters from `i` on.
pub open spec fn view_chs(l: Seq<Chapter>, i: int) -> Seq<ChapterV>
    decreases l, l.len() - i + 1,
{
    if i < 0 || i >= l.len() {
        Seq::empty()
    } else {
        seq![view_ch(l[i])] + view_chs(l, i + 1)
    }
}

proof fn lemma_view_chs(l: Seq<Chapter>, i: int)
    requires
        0 <= i <= l.len(),
    ensures
        view_chs(l, i).len() == l.len() - i,
        forall|k: int| 0 <= k < l.len() - i ==> #[trigger] view_chs(l, i)[k] == view_ch(
            l[i + k],
        ),
    decreases l.len() - i,
{
    if i < l.len() {
        lemma_view_chs(l, i + 1);
    }
}

/// A fatal error: the run aborts and no partial output is kept.
#[derive(Debug, PartialEq, Eq)]
pub enum RunError {
    /// A section-number component is not a parseable machine integer while
    /// depth-based numbering is on.
    MalformedSectionNumber,
    /// The equation counter would not fit the machine.
    TooManyEquations,
}

/// The state the numbering pass threads through the pre-order traversal.
pub struct St1 {
    pub ctr: nat,
    pub ccn: Seq<nat>,
    pub table: Map<Seq<u8>, LabelInfoV>,
    pub warns: Seq<WarningV>,
}

/// Scanning one chapter's content once prefix and counter are settled.
pub open spec fn scan_step(
    content: Seq<u8>,
    prefix: Seq<u8>,
    path: Seq<u8>,
    st: St1,
    ctr: nat,
    ccn: Seq<nat>,
) -> Result<(Seq<u8>, St1), RunError> {
    if ctr + content.len() > usize::MAX {
        Err(RunError::TooManyEquations)
    } else {
        let r = rewrite_eqs_at(content, 0, prefix, path, st.table, ctr, st.warns);
        Ok((r.out, St1 { ctr: r.ctr, ccn, table: r.table, warns: r.warns }))
    }
}

/// The numbering pass on one non-draft chapter: the printed prefix and the
/// counter resets come from the configuration and the section number, then
/// the content is scanned.
pub open spec fn number_chapter(
    content: Seq<u8>,
    number: Option<Seq<u8>>,
    path: Seq<u8>,
    cfg: NumEqPreprocessor,
    st: St1,
) -> Result<(Seq<u8>, St1), RunError> {
    let prefix0: Seq<u8> = if cfg.with_prefix {
        match number {
            Some(sn) => sn,
            None => Seq::empty(),
        }
    } else {
        Seq::empty()
    };
    let ctr0: nat = if !cfg.global && cfg.prefix_depth == 0 {
        0nat
    } else {
        st.ctr
    };
    if cfg.prefix_depth > 0 {
        if prefix0.len() == 0 {
            scan_step(content, Seq::empty(), path, st, 0nat, st.ccn)
        } else if !valid_secnum(prefix0) {
            Err(RunError::MalformedSectionNumber)
        } else {
            let pv = depth_comps(prefix0, cfg.prefix_depth as int);
            let ccn2 = if pv != st.ccn {
                pv
            } else {
                st.ccn
            };
            let ctr2: nat = if pv != st.ccn {
                0nat
            } else {
                ctr0
            };
            scan_step(content, render_ccn(ccn2), path, st, ctr2, ccn2)
        }
    } else {
        scan_step(content, prefix0, path, st, ctr0, st.ccn)
    }
}

/// The numbering pass on one chapter and its subtree, pre-order.
pub open spec fn pass1_ch(ch: Chapter, cfg: NumEqPreprocessor, st: St1) -> Result<
    (ChapterV, St1),
    RunError,
>
    decreases ch, 0int,
{
    let step = match ch.path {
        Some(p) => number_chapter(ch.content@, opt_view(ch.number), p@, cfg, st),
        None => Ok((ch.content@, st)),
    };
    match step {
        Err(e) => Err(e),
        Ok((c2, st2)) => match pass1_chs(ch.sub_items@, 0, cfg, st2) {
            Err(e) => Err(e),
            Ok((subs2, st3)) => Ok(
                (
                    ChapterV {
                        path: opt_view(ch.path),
                        number: opt_view(ch.number),
                        content: c2,
                        subs: subs2,
                    },
                    st3,
                ),
            ),
        },
    }
}

/// The numbering pass on the chapters from `i` on, in order.
pub open spec fn pass1_chs(l: Seq<Chapter>, i: int, cfg: NumEqPreprocessor, st: St1) -> Result<
    (Seq<ChapterV>, St1),
    RunError,
>
    decreases l, l.len() - i + 1,
{
    if i < 0 || i >= l.len() {
        Ok((Seq::empty(), st))
    } else {
        match pass1_ch(l[i], cfg, st) {
            Err(e) => Err(e),
            Ok((ch2, st2)) => match pass1_chs(l, i + 1, cfg, st2) {
                Err(e) => Err(e),
                Ok((rest, st3)) => Ok((seq![ch2] + rest, st3)),
            },
        }
    }
}

/// The reference pass on one chapter and its subtree.
pub open spec fn pass2_ch(
    ch: ChapterV,
    table: Map<Seq<u8>, LabelInfoV>,
    warns: Seq<WarningV>,
) -> (ChapterV, Seq<WarningV>)
    decreases ch, 0int,
{
    let step = match ch.path {
        Some(p) => {
            let r = rewrite_refs_at(ch.content, 0, p, table, warns);
            (r.out, r.warns)
        },
        None => (ch.content, warns),
    };
    let r2 = pass2_chs(ch.subs, 0, table, step.1);
    (ChapterV { path: ch.path, number: ch.number, content: step.0, subs: r2.0 }, r2.1)
}

/// The reference pass on the chapters from `i` on.
pub open spec fn pass2_chs(
    l: Seq<ChapterV>,
    i: int,
    table: Map<Seq<u8>, LabelInfoV>,
    warns: Seq<WarningV>,
) -> (Seq<ChapterV>, Seq<WarningV>)
    decreases l, l.len() - i + 1,
{
    if i < 0 || i >= l.len() {
        (Seq::empty(), warns)
    } else {
        let r = pass2_ch(l[i], table, warns);
        let rest = pass2_chs(l, i + 1, table, r.1);
        (seq![r.0] + rest.0, rest.1)
    }
}

/// The whole run: the numbering pass over the tree, then the reference
/// pass against the completed label table.
pub open spec fn spec_run(sections: Seq<Chapter>, cfg: NumEqPreprocessor) -> Result<
    (Seq<ChapterV>, Seq<WarningV>),
    RunError,
> {
    let st0 = St1 {
        ctr: 0,
        ccn: init_ccn(cfg.prefix_depth as int),
        table: Map::empty(),
        warns: Seq::empty(),
    };
    match pass1_chs(sections, 0, cfg, st0) {
        Err(e) => Err(e),
        Ok((l1, st1)) => {
            let r = pass2_chs(l1, 0, st1.table, st1.warns);
            Ok((r.0, r.1))
        },
    }
}

/// The exec state of the numbering pass.
pub struct Pass1State {
    pub ctr: usize,
    pub ccn: Vec<usize>,
    pub table: LabelTable,
    pub warns: Vec<Warning>,
}

/// The ghost mirror of the exec pass state.
pub open spec fn st1_view(st: Pass1State) -> St1 {
    St1 {
        ctr: st.ctr as nat,
        ccn: st.ccn@.map_values(|x: usize| x as nat),
        table: st.table@,
        warns: warns_view(st.warns@),
    }
}

/// A fresh copy of an optional byte vector.
fn copy_opt(o: &Option<Vec<u8>>) -> (r: Option<Vec<u8>>)
    ensures
        opt_view(r) == opt_view(*o),
{
    match o {
        Some(v) => Some(copy_range(v, 0, v.len())),
        None => None,
    }
}

/// The numbering pass on one chapter and its subtree.
fn pass1_ch_exec(ch: &Chapter, cfg: &NumEqPreprocessor, st: &mut Pass1State) -> (r: Result<
    Chapter,
    RunError,
>)
    ensures
        match r {
            Ok(c2) => pass1_ch(*ch, *cfg, st1_view(*old(st))) == Ok::<_, RunError>(
                (view_ch(c2), st1_view(*final(st))),
            ),
            Err(e) => pass1_ch(*ch, *cfg, st1_view(*old(st))) == Err::<(ChapterV, St1), _>(e),
        },
    decreases *ch, 0int,
{
    let content2: Vec<u8>;
    match &ch.path {
        None => {
            content2 = copy_range(&ch.content, 0, ch.content.len());
            proof {
                assert(content2@ =~= ch.content@);
            }
        },
        Some(p) => {
            let mut prefix: Vec<u8> = Vec::new();
            if cfg.with_prefix {
                if let Some(sn) = &ch.number {
                    prefix = copy_range(sn, 0, sn.len());
                    proof {
                        assert(prefix@ =~= sn@);
                    }
                }
            }
            if !cfg.global && cfg.prefix_depth == 0 {
                st.ctr = 0;
            }
            if cfg.prefix_depth > 0 {
                if prefix.len() == 0 {
                    st.ctr = 0;
                } else {
                    match parse_secnum(&prefix, cfg.prefix_depth) {
                        None => {
                            return Err(RunError::MalformedSectionNumber);
                        },
                        Some(pv) => {
                            if !usize_vec_eq(&pv, &st.ccn) {
                                proof {
                                    let a = pv@.map_values(|x: usize| x as nat);
                                    let b = st.ccn@.map_values(|x: usize| x as nat);
                                    if a == b {
                                        assert forall|z: int| 0 <= z < pv@.len() implies pv@[z]
                                            == st.ccn@[z] by {
                                            assert(a[z] == b[z]);
                                        }
                                        assert(pv@ =~= st.ccn@);
                                    }
                                }
                                st.ccn = pv;
                                st.ctr = 0;
                            } else {
                                proof {
                                    assert(pv@.map_values(|x: usize| x as nat) =~= st.ccn@
                                        .map_values(|x: usize| x as nat));
                                }
                            }
                            prefix = render_prefix(&st.ccn);
                        },
                    }
                }
            }
            proof {
                if prefix@.len() == 0 {
                    assert(prefix@ =~= Seq::<u8>::empty());
                }
            }
            if usize::MAX - ch.content.len() < st.ctr {
                return Err(RunError::TooManyEquations);
            }
            content2 = find_and_replace_eqs(
                &ch.content,
                &prefix,
                p,
                &mut st.table,
                &mut st.ctr,
                &mut st.warns,
            );
            proof {
                assert(number_chapter(ch.content@, opt_view(ch.number), p@, *cfg, st1_view(
                    *old(st),
                )) == Ok::<(Seq<u8>, St1), RunError>((content2@, st1_view(*st))));
            }
        },
    }
    let subs2 = pass1_chs_exec(&ch.sub_items, 0, cfg, st);
    match subs2 {
        Err(e) => Err(e),
        Ok(subs2) => {
            let c2 = Chapter {
                path: copy_opt(&ch.path),
                number: copy_opt(&ch.number),
                content: content2,
                sub_items: subs2,
            };
            proof {
                assert(view_ch(c2) == ChapterV {
                    path: opt_view(ch.path),
                    number: opt_view(ch.number),
                    content: content2@,
                    subs: view_chs(c2.sub_items@, 0),
                });
            }
            Ok(c2)
        },
    }
}

/// The numbering pass on the chapters from `i` on.
fn pass1_chs_exec(chs: &Vec<Chapter>, i: usize, cfg: &NumEqPreprocessor, st: &mut Pass1State) -> (r:
    Result<Vec<Chapter>, RunError>)
    requires
        i <= chs.len(),
    ensures
        match r {
            Ok(out) => pass1_chs(chs@, i as int, *cfg, st1_view(*old(st))) == Ok::<_, RunError>(
                (view_chs(out@, 0), st1_view(*final(st))),
            ),
            Err(e) => pass1_chs(chs@, i as int, *cfg, st1_view(*old(st))) == Err::<
                (Seq<ChapterV>, St1),
                _,
            >(e),
        },
    decreases chs@, chs@.len() - i,
{
    if i == chs.len() {
        let out: Vec<Chapter> = Vec::new();
        proof {
            assert(view_chs(out@, 0) =~= Seq::<ChapterV>::empty());
        }
        Ok(out)
    } else {
        match pass1_ch_exec(&chs[i], cfg, st) {
            Err(e) => Err(e),
            Ok(ch2) => {
                match pass1_chs_exec(chs, i + 1, cfg, st) {
                    Err(e) => Err(e),
                    Ok(mut rest) => {
                        let ghost restv = rest@;
                        let ghost ch2g = ch2;
                        rest.insert(0, ch2);
                        proof {
                            assert(rest@ =~= seq![ch2g] + restv);
                            lemma_view_chs(rest@, 0);
                            lemma_view_chs(restv, 0);
                            assert(view_chs(rest@, 0) =~= seq![view_ch(ch2g)] + view_chs(
                                restv,
                                0,
                            ));
                        }
                        Ok(rest)
                    },
                }
            },
        }
    }
}

/// The reference pass on one chapter and its subtree.
fn pass2_ch_exec(ch: &Chapter, table: &LabelTable, warns: &mut Vec<Warning>) -> (c2: Chapter)
    ensures
        pass2_ch(view_ch(*ch), table@, warns_view(old(warns)@)) == (
            view_ch(c2),
            warns_view(final(warns)@),
        ),
    decreases *ch, 0int,
{
    let content2: Vec<u8>;
    match &ch.path {
        None => {
            content2 = copy_range(&ch.content, 0, ch.content.len());
            proof {
                assert(content2@ =~= ch.content@);
            }
        },
        Some(p) => {
            content2 = find_and_replace_refs(&ch.content, p, table, warns);
        },
    }
    let subs2 = pass2_chs_exec(&ch.sub_items, 0, table, warns);
    Chapter {
        path: copy_opt(&ch.path),
        number: copy_opt(&ch.number),
        content: content2,
        sub_items: subs2,
    }
}

/// The reference pass on the chapters from `i` on.
fn pass2_chs_exec(chs: &Vec<Chapter>, i: usize, table: &LabelTable, warns: &mut Vec<Warning>) -> (out:
    Vec<Chapter>)
    requires
        i <= chs.len(),
    ensures
        pass2_chs(view_chs(chs@, 0), i as int, table@, warns_view(old(warns)@)) == ((
            view_chs(out@, 0),
            warns_view(final(warns)@),
        )),
    decreases chs@, chs@.len() - i,
{
    proof {
        lemma_view_chs(chs@, 0);
    }
    if i == chs.len() {
        let out: Vec<Chapter> = Vec::new();
        proof {
            assert(view_chs(out@, 0) =~= Seq::<ChapterV>::empty());
        }
        out
    } else {
        proof {
            assert(view_chs(chs@, 0)[i as int] == view_ch(chs@[i as int]));
        }
        let ch2 = pass2_ch_exec(&chs[i], table, warns);
        let mut rest = pass2_chs_exec(chs, i + 1, table, warns);
        let ghost restv = rest@;
        let ghost ch2g = ch2;
        rest.insert(0, ch2);
        proof {
            assert(rest@ =~= seq![ch2g] + restv);
            lemma_view_chs(rest@, 0);
            lemma_view_chs(restv, 0);
            assert(view_chs(rest@, 0) =~= seq![view_ch(ch2g)] + view_chs(restv, 0));
        }
        rest
    }
}

impl NumEqPreprocessor {
    /// Runs both passes over the book and returns it together with the
    /// diagnostics; a malformed section number or a counter past the
    /// machine limit aborts the run.
    pub fn run(&self, book: Book) -> (r: Result<(Book, Vec<Warning>), RunError>)
        ensures
            match r {
                Ok(out) => spec_run(book.sections@, *self) == Ok::<_, RunError>(
                    (view_chs(out.0.sections@, 0), warns_view(out.1@)),
                ),
                Err(e) => spec_run(book.sections@, *self) == Err::<
                    (Seq<ChapterV>, Seq<WarningV>),
                    _,
                >(e),
            },
    {
        let mut ccn: Vec<usize> = Vec::new();
        if self.prefix_depth > 0 {
            ccn.push(1);
            while ccn.len() < self.prefix_depth
                invariant
                    1 <= ccn@.len() <= self.prefix_depth,
                    ccn@[0] == 1usize,
                    forall|q: int| 1 <= q < ccn@.len() ==> ccn@[q] == 0usize,
                decreases self.prefix_depth - ccn.len(),
            {
                ccn.push(0);
            }
        }
        proof {
            assert(ccn@.map_values(|x: usize| x as nat) =~= init_ccn(
                self.prefix_depth as int,
            ));
        }
        let mut st = Pass1State { ctr: 0, ccn, table: LabelTable::new(), warns: Vec::new() };
        proof {
            assert(warns_view(st.warns@) =~= Seq::<WarningV>::empty());
        }
        match pass1_chs_exec(&book.sections, 0, self, &mut st) {
            Err(e) => Err(e),
            Ok(sections1) => {
                let mut warns = st.warns;
                let sections2 = pass2_chs_exec(&sections1, 0, &st.table, &mut warns);
                Ok((Book { sections: sections2 }, warns))
            },
        }
    }
}

} // verus!
