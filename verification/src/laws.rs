//! Laws of the two passes, proved against the model: untouched content,
//! sequential counting, first-writer-wins label bindings, and the
//! round trip of the relative path resolver.

use vstd::prelude::*;

use crate::model::{
    brace_end, close_brace, common_from, dec_rep, dotdot, eq_label_at, eq_token_at,
    join_sep, lemma_brace_end, ref_match_at, rel_path_view, rewrite_eqs_at,
    rewrite_refs_at, sep_pos, split_from, split_sep, tag_open, EqScanV, LabelInfoV,
    RefScanV, WarningV,
};

verus! {

/// No equation placeholder starts anywhere in `s`.
pub open spec fn no_eq_tokens(s: Seq<u8>) -> bool {
    forall|i: int| !eq_token_at(s, i)
}

/// No reference placeholder matches anywhere in `s`.
pub open spec fn no_ref_matches(s: Seq<u8>) -> bool {
    forall|i: int| !ref_match_at(s, i)
}

/// A content without equation placeholders is copied unchanged by the
/// numbering pass, and the counter, the table and the warnings keep their
/// values.
pub proof fn lemma_no_eqs_unchanged(
    s: Seq<u8>,
    i: int,
    prefix: Seq<u8>,
    path: Seq<u8>,
    table: Map<Seq<u8>, LabelInfoV>,
    ctr: nat,
    warns: Seq<WarningV>,
)
    requires
        no_eq_tokens(s),
        0 <= i <= s.len(),
    ensures
        rewrite_eqs_at(s, i, prefix, path, table, ctr, warns) == (EqScanV {
            out: s.subrange(i, s.len() as int),
            table,
            ctr,
            warns,
        }),
    decreases s.len() - i,
{
    if i < s.len() {
        lemma_no_eqs_unchanged(s, i + 1, prefix, path, table, ctr, warns);
        assert(seq![s[i]] + s.subrange(i + 1, s.len() as int) =~= s.subrange(
            i,
            s.len() as int,
        ));
    } else {
        assert(s.subrange(i, s.len() as int) =~= Seq::<u8>::empty());
    }
}

/// A content without reference placeholders is copied unchanged by the
/// reference pass, and no warning is added.
pub proof fn lemma_no_refs_unchanged(
    s: Seq<u8>,
    i: int,
    chap_path: Seq<u8>,
    table: Map<Seq<u8>, LabelInfoV>,
    warns: Seq<WarningV>,
)
    requires
        no_ref_matches(s),
        0 <= i <= s.len(),
    ensures
        rewrite_refs_at(s, i, chap_path, table, warns) == (RefScanV {
            out: s.subrange(i, s.len() as int),
            warns,
        }),
    decreases s.len() - i,
{
    if i < s.len() {
        lemma_no_refs_unchanged(s, i + 1, chap_path, table, warns);
        assert(seq![s[i]] + s.subrange(i + 1, s.len() as int) =~= s.subrange(
            i,
            s.len() as int,
        ));
    } else {
        assert(s.subrange(i, s.len() as int) =~= Seq::<u8>::empty());
    }
}

/// A content with no placeholders at all comes out of both passes
/// unchanged.
pub proof fn lemma_no_placeholders_unchanged(
    s: Seq<u8>,
    prefix: Seq<u8>,
    path: Seq<u8>,
    table: Map<Seq<u8>, LabelInfoV>,
    ctr: nat,
    warns: Seq<WarningV>,
    table2: Map<Seq<u8>, LabelInfoV>,
)
    requires
        no_eq_tokens(s),
        no_ref_matches(s),
    ensures
        ({
            let r1 = rewrite_eqs_at(s, 0, prefix, path, table, ctr, warns);
            let r2 = rewrite_refs_at(r1.out, 0, path, table2, r1.warns);
            r2.out == s && r1.table == table && r1.ctr == ctr && r2.warns == warns
        }),
{
    lemma_no_eqs_unchanged(s, 0, prefix, path, table, ctr, warns);
    assert(s.subrange(0, s.len() as int) =~= s);
    lemma_no_refs_unchanged(s, 0, path, table2, warns);
}

/// How many equation placeholders the numbering pass meets from `i` on.
pub open spec fn count_eqs(s: Seq<u8>, i: int) -> nat
    decreases s.len() - i via count_eqs_dec
{
    if i < 0 || i >= s.len() {
        0
    } else if eq_token_at(s, i) {
        match eq_label_at(s, i) {
            Some(j) => 1 + count_eqs(s, j + 1),
            None => 1 + count_eqs(s, i + 9),
        }
    } else {
        count_eqs(s, i + 1)
    }
}

#[via_fn]
proof fn count_eqs_dec(s: Seq<u8>, i: int) {
    lemma_brace_end(s, i + 10);
}

/// The counter comes out advanced by exactly the number of placeholders:
/// each one takes the next sequential number.
pub proof fn lemma_ctr_advances(
    s: Seq<u8>,
    i: int,
    prefix: Seq<u8>,
    path: Seq<u8>,
    table: Map<Seq<u8>, LabelInfoV>,
    ctr: nat,
    warns: Seq<WarningV>,
)
    ensures
        rewrite_eqs_at(s, i, prefix, path, table, ctr, warns).ctr == ctr + count_eqs(s, i),
    decreases s.len() - i,
{
    if 0 <= i && i < s.len() {
        if eq_token_at(s, i) {
            match eq_label_at(s, i) {
                Some(j) => {
                    lemma_brace_end(s, i + 10);
                    let label = s.subrange(i + 10, j);
                    let num = prefix + dec_rep(ctr + 1);
                    if table.contains_key(label) {
                        lemma_ctr_advances(
                            s,
                            j + 1,
                            prefix,
                            path,
                            table,
                            ctr + 1,
                            warns.push(WarningV::DuplicateLabel { label, num }),
                        );
                    } else {
                        lemma_ctr_advances(
                            s,
                            j + 1,
                            prefix,
                            path,
                            table.insert(label, LabelInfoV { num, path }),
                            ctr + 1,
                            warns,
                        );
                    }
                },
                None => {
                    lemma_ctr_advances(s, i + 9, prefix, path, table, ctr + 1, warns);
                },
            }
        } else {
            lemma_ctr_advances(s, i + 1, prefix, path, table, ctr, warns);
        }
    }
}

/// The placeholder the scan meets next takes the next counter value: an
/// unlabeled one met after `ctr` equations renders the tag for `ctr + 1`.
/// With `lemma_ctr_advances`, that is its 1-based rank in the current
/// reset window.
pub proof fn lemma_next_tag(
    s: Seq<u8>,
    i: int,
    prefix: Seq<u8>,
    path: Seq<u8>,
    table: Map<Seq<u8>, LabelInfoV>,
    ctr: nat,
    warns: Seq<WarningV>,
)
    requires
        eq_token_at(s, i),
        eq_label_at(s, i).is_none(),
    ensures
        ({
            let r = rewrite_eqs_at(s, i, prefix, path, table, ctr, warns);
            let rep = tag_open() + prefix + dec_rep(ctr + 1) + close_brace();
            r.out.len() >= rep.len() && r.out.subrange(0, rep.len() as int) == rep
        }),
{
    let r = rewrite_eqs_at(s, i, prefix, path, table, ctr, warns);
    let rep = tag_open() + prefix + dec_rep(ctr + 1) + close_brace();
    let rest = rewrite_eqs_at(s, i + 9, prefix, path, table, ctr + 1, warns);
    assert(r.out =~= rep + rest.out);
    assert(r.out.subrange(0, rep.len() as int) =~= rep);
}

/// First writer wins: a label already bound keeps its binding through the
/// numbering pass.
pub proof fn lemma_label_kept(
    s: Seq<u8>,
    i: int,
    prefix: Seq<u8>,
    path: Seq<u8>,
    table: Map<Seq<u8>, LabelInfoV>,
    ctr: nat,
    warns: Seq<WarningV>,
    l: Seq<u8>,
)
    requires
        table.contains_key(l),
    ensures
        ({
            let r = rewrite_eqs_at(s, i, prefix, path, table, ctr, warns);
            r.table.contains_key(l) && r.table[l] == table[l]
        }),
    decreases s.len() - i,
{
    if 0 <= i && i < s.len() {
        if eq_token_at(s, i) {
            match eq_label_at(s, i) {
                Some(j) => {
                    lemma_brace_end(s, i + 10);
                    let label = s.subrange(i + 10, j);
                    let num = prefix + dec_rep(ctr + 1);
                    if table.contains_key(label) {
                        lemma_label_kept(
                            s,
                            j + 1,
                            prefix,
                            path,
                            table,
                            ctr + 1,
                            warns.push(WarningV::DuplicateLabel { label, num }),
                            l,
                        );
                    } else {
                        lemma_label_kept(
                            s,
                            j + 1,
                            prefix,
                            path,
                            table.insert(label, LabelInfoV { num, path }),
                            ctr + 1,
                            warns,
                            l,
                        );
                    }
                },
                None => {
                    lemma_label_kept(s, i + 9, prefix, path, table, ctr + 1, warns, l);
                },
            }
        } else {
            lemma_label_kept(s, i + 1, prefix, path, table, ctr, warns, l);
        }
    }
}

/// Every binding the numbering pass adds carries this chapter's path and
/// the rendered number of one of the counter values it assigned.
pub proof fn lemma_new_label_bound(
    s: Seq<u8>,
    i: int,
    prefix: Seq<u8>,
    path: Seq<u8>,
    table: Map<Seq<u8>, LabelInfoV>,
    ctr: nat,
    warns: Seq<WarningV>,
    l: Seq<u8>,
)
    requires
        !table.contains_key(l),
        rewrite_eqs_at(s, i, prefix, path, table, ctr, warns).table.contains_key(l),
    ensures
        ({
            let r = rewrite_eqs_at(s, i, prefix, path, table, ctr, warns);
            r.table[l].path == path && exists|n: nat|
                ctr < n <= r.ctr && r.table[l].num == prefix + dec_rep(n)
        }),
    decreases s.len() - i,
{
    lemma_ctr_advances(s, i, prefix, path, table, ctr, warns);
    if 0 <= i && i < s.len() {
        if eq_token_at(s, i) {
            match eq_label_at(s, i) {
                Some(j) => {
                    lemma_brace_end(s, i + 10);
                    let label = s.subrange(i + 10, j);
                    let num = prefix + dec_rep(ctr + 1);
                    if table.contains_key(label) {
                        lemma_new_label_bound(
                            s,
                            j + 1,
                            prefix,
                            path,
                            table,
                            ctr + 1,
                            warns.push(WarningV::DuplicateLabel { label, num }),
                            l,
                        );
                    } else {
                        let t2 = table.insert(label, LabelInfoV { num, path });
                        let r = rewrite_eqs_at(s, j + 1, prefix, path, t2, ctr + 1, warns);
                        if l == label {
                            lemma_label_kept(s, j + 1, prefix, path, t2, ctr + 1, warns, l);
                            lemma_ctr_advances(s, j + 1, prefix, path, t2, ctr + 1, warns);
                            assert(ctr < ctr + 1 <= r.ctr && r.table[l].num == prefix
                                + dec_rep(ctr + 1));
                        } else {
                            lemma_new_label_bound(s, j + 1, prefix, path, t2, ctr + 1, warns, l);
                        }
                    }
                },
                None => {
                    lemma_new_label_bound(s, i + 9, prefix, path, table, ctr + 1, warns, l);
                },
            }
        } else {
            lemma_new_label_bound(s, i + 1, prefix, path, table, ctr, warns, l);
        }
    }
}

/// The labels of the labeled equation placeholders from `i` on.
pub open spec fn eq_labels(s: Seq<u8>, i: int) -> Set<Seq<u8>>
    decreases s.len() - i via eq_labels_dec
{
    if i < 0 || i >= s.len() {
        Set::empty()
    } else if eq_token_at(s, i) {
        match eq_label_at(s, i) {
            Some(j) => eq_labels(s, j + 1).insert(s.subrange(i + 10, j)),
            None => eq_labels(s, i + 9),
        }
    } else {
        eq_labels(s, i + 1)
    }
}

#[via_fn]
proof fn eq_labels_dec(s: Seq<u8>, i: int) {
    lemma_brace_end(s, i + 10);
}

/// Every label written in the content is bound in the table after the
/// numbering pass.
pub proof fn lemma_labels_recorded(
    s: Seq<u8>,
    i: int,
    prefix: Seq<u8>,
    path: Seq<u8>,
    table: Map<Seq<u8>, LabelInfoV>,
    ctr: nat,
    warns: Seq<WarningV>,
    l: Seq<u8>,
)
    requires
        eq_labels(s, i).contains(l) || table.contains_key(l),
    ensures
        rewrite_eqs_at(s, i, prefix, path, table, ctr, warns).table.contains_key(l),
    decreases s.len() - i,
{
    if table.contains_key(l) {
        lemma_label_kept(s, i, prefix, path, table, ctr, warns, l);
    } else if 0 <= i && i < s.len() {
        if eq_token_at(s, i) {
            match eq_label_at(s, i) {
                Some(j) => {
                    lemma_brace_end(s, i + 10);
                    let label = s.subrange(i + 10, j);
                    let num = prefix + dec_rep(ctr + 1);
                    if table.contains_key(label) {
                        lemma_labels_recorded(
                            s,
                            j + 1,
                            prefix,
                            path,
                            table,
                            ctr + 1,
                            warns.push(WarningV::DuplicateLabel { label, num }),
                            l,
                        );
                    } else {
                        let t2 = table.insert(label, LabelInfoV { num, path });
                        lemma_labels_recorded(s, j + 1, prefix, path, t2, ctr + 1, warns, l);
                    }
                },
                None => {
                    lemma_labels_recorded(s, i + 9, prefix, path, table, ctr + 1, warns, l);
                },
            }
        } else {
            lemma_labels_recorded(s, i + 1, prefix, path, table, ctr, warns, l);
        }
    }
}

/// Resolving a chapter's path against itself yields the empty string.
pub proof fn lemma_rel_path_self(p: Seq<u8>)
    ensures
        rel_path_view(p, p) == Seq::<u8>::empty(),
{
}

/// No byte of `c` is the separator.
pub open spec fn seq_no_sep(c: Seq<u8>, sep: u8) -> bool {
    forall|q: int| 0 <= q < c.len() ==> c[q] != sep
}

proof fn lemma_sep_pos_props(s: Seq<u8>, sep: u8, p: int)
    requires
        0 <= p <= s.len(),
    ensures
        p <= sep_pos(s, sep, p) <= s.len(),
        sep_pos(s, sep, p) < s.len() ==> s[sep_pos(s, sep, p)] == sep,
        forall|q: int| p <= q < sep_pos(s, sep, p) ==> s[q] != sep,
    decreases s.len() - p,
{
    if p < s.len() && s[p] != sep {
        lemma_sep_pos_props(s, sep, p + 1);
    }
}

proof fn lemma_sep_pos_is(s: Seq<u8>, sep: u8, p: int, m: int)
    requires
        0 <= p <= m <= s.len(),
        forall|q: int| p <= q < m ==> s[q] != sep,
        m == s.len() || s[m] == sep,
    ensures
        sep_pos(s, sep, p) == m,
    decreases m - p,
{
    if p < m {
        lemma_sep_pos_is(s, sep, p + 1, m);
    }
}

proof fn lemma_split_no_sep(s: Seq<u8>, sep: u8, p: int)
    requires
        0 <= p <= s.len(),
    ensures
        forall|k: int| 0 <= k < split_from(s, sep, p).len() ==> seq_no_sep(
            #[trigger] split_from(s, sep, p)[k],
            sep,
        ),
    decreases s.len() - p,
{
    lemma_sep_pos_props(s, sep, p);
    let kpos = sep_pos(s, sep, p);
    if kpos < s.len() {
        lemma_split_no_sep(s, sep, kpos + 1);
    }
    assert forall|k: int| 0 <= k < split_from(s, sep, p).len() implies seq_no_sep(
        #[trigger] split_from(s, sep, p)[k],
        sep,
    ) by {
        if kpos == s.len() {
            assert(split_from(s, sep, p)[k] == s.subrange(p, s.len() as int));
            assert forall|q: int| 0 <= q < s.len() - p implies s.subrange(
                p,
                s.len() as int,
            )[q] != sep by {
                assert(s.subrange(p, s.len() as int)[q] == s[p + q]);
            }
        } else if k == 0 {
            assert(split_from(s, sep, p)[k] == s.subrange(p, kpos));
            assert forall|q: int| 0 <= q < kpos - p implies s.subrange(p, kpos)[q]
                != sep by {
                assert(s.subrange(p, kpos)[q] == s[p + q]);
            }
        } else {
            assert(split_from(s, sep, p)[k] == split_from(s, sep, kpos + 1)[k - 1]);
        }
    }
}

proof fn lemma_sep_pos_shift(x: Seq<u8>, y: Seq<u8>, sep: u8, p: int)
    requires
        0 <= p <= y.len(),
    ensures
        sep_pos(x + y, sep, x.len() + p) == x.len() + sep_pos(y, sep, p),
    decreases y.len() - p,
{
    if p < y.len() {
        assert((x + y)[x.len() + p] == y[p]);
        if y[p] != sep {
            lemma_sep_pos_shift(x, y, sep, p + 1);
        }
    }
}

proof fn lemma_split_shift(x: Seq<u8>, y: Seq<u8>, sep: u8, p: int)
    requires
        0 <= p <= y.len(),
    ensures
        split_from(x + y, sep, x.len() + p) == split_from(y, sep, p),
    decreases y.len() - p,
{
    lemma_sep_pos_shift(x, y, sep, p);
    lemma_sep_pos_props(y, sep, p);
    let k = sep_pos(y, sep, p);
    if k == y.len() {
        assert((x + y).subrange(x.len() + p, (x + y).len() as int) =~= y.subrange(
            p,
            y.len() as int,
        ));
        assert(split_from(x + y, sep, x.len() + p) =~~= split_from(y, sep, p));
    } else {
        assert((x + y).subrange(x.len() + p, x.len() + k) =~= y.subrange(p, k));
        lemma_split_shift(x, y, sep, k + 1);
        assert(split_from(x + y, sep, x.len() + p) =~~= split_from(y, sep, p));
    }
}

proof fn lemma_split_join(cs: Seq<Seq<u8>>, sep: u8)
    requires
        cs.len() >= 1,
        forall|k: int| 0 <= k < cs.len() ==> seq_no_sep(#[trigger] cs[k], sep),
    ensures
        split_sep(join_sep(cs, sep), sep) == cs,
    decreases cs.len(),
{
    let j = join_sep(cs, sep);
    if cs.len() == 1 {
        assert(j == cs[0]);
        lemma_sep_pos_is(j, sep, 0, j.len() as int);
        assert(j.subrange(0, j.len() as int) =~= j);
        assert(split_sep(j, sep) =~~= cs);
    } else {
        let head = cs[0];
        let rest = cs.drop_first();
        let jr = join_sep(rest, sep);
        assert(j == head + seq![sep] + jr);
        let m = head.len() as int;
        assert(forall|q: int| 0 <= q < m ==> j[q] == head[q] && j[q] != sep);
        assert(j[m] == sep);
        lemma_sep_pos_is(j, sep, 0, m);
        assert(j.subrange(0, m) =~= head);
        assert(j =~= (head + seq![sep]) + jr);
        lemma_split_shift(head + seq![sep], jr, sep, 0);
        lemma_split_join(rest, sep);
        assert(split_from(j, sep, m + 1) == split_sep(jr, sep));
        assert(split_sep(j, sep) =~~= seq![head] + rest);
        assert(seq![head] + rest =~= cs);
    }
}

proof fn lemma_common(a: Seq<Seq<u8>>, b: Seq<Seq<u8>>, i: int)
    requires
        0 <= i <= a.len(),
        i <= b.len(),
        forall|k: int| 0 <= k < i ==> a[k] == b[k],
    ensures
        i <= common_from(a, b, i) <= a.len(),
        common_from(a, b, i) <= b.len(),
        forall|k: int| 0 <= k < common_from(a, b, i) ==> a[k] == b[k],
    decreases a.len() - i,
{
    if i < a.len() && i < b.len() && a[i] == b[i] {
        lemma_common(a, b, i + 1);
    }
}

/// Lexically resolving a relative path against a directory: ".." pops a
/// component, anything else is entered.
pub open spec fn resolve(dir: Seq<Seq<u8>>, rel: Seq<Seq<u8>>) -> Seq<Seq<u8>>
    decreases rel.len(),
{
    if rel.len() == 0 {
        dir
    } else if rel[0] == dotdot() {
        resolve(dir.drop_last(), rel.drop_first())
    } else {
        resolve(dir.push(rel[0]), rel.drop_first())
    }
}

proof fn lemma_resolve_ups(dir: Seq<Seq<u8>>, k: int, rest: Seq<Seq<u8>>)
    requires
        0 <= k <= dir.len(),
    ensures
        resolve(dir, Seq::new(k as nat, |q: int| dotdot()) + rest) == resolve(
            dir.take(dir.len() - k),
            rest,
        ),
    decreases k,
{
    let rel = Seq::new(k as nat, |q: int| dotdot()) + rest;
    if k == 0 {
        assert(rel =~= rest);
        assert(dir.take(dir.len() as int) =~= dir);
    } else {
        assert(rel[0] == dotdot());
        assert(rel.drop_first() =~= Seq::new((k - 1) as nat, |q: int| dotdot()) + rest);
        assert(dir.drop_last() =~= dir.take(dir.len() - 1));
        lemma_resolve_ups(dir.take(dir.len() - 1), k - 1, rest);
        assert(dir.take(dir.len() - 1).take(dir.len() - k) =~= dir.take(dir.len() - k));
    }
}

proof fn lemma_resolve_plain(dir: Seq<Seq<u8>>, rest: Seq<Seq<u8>>)
    requires
        forall|q: int| 0 <= q < rest.len() ==> rest[q] != dotdot(),
    ensures
        resolve(dir, rest) == dir + rest,
    decreases rest.len(),
{
    if rest.len() == 0 {
        assert(dir + rest =~= dir);
    } else {
        lemma_resolve_plain(dir.push(rest[0]), rest.drop_first());
        assert(dir.push(rest[0]) + rest.drop_first() =~= dir + rest);
    }
}

/// The computed relative path, resolved lexically from the referencing
/// chapter's directory, reaches exactly the target chapter's path. Target
/// paths whose components are ".." are left out, as is a target that
/// equals the referencing chapter's directory.
pub proof fn lemma_rel_path_resolves(from: Seq<u8>, to: Seq<u8>)
    requires
        from != to,
        split_sep(from, 47u8).drop_last() != split_sep(to, 47u8),
        forall|k: int| 0 <= k < split_sep(to, 47u8).len() ==> #[trigger] split_sep(
            to,
            47u8,
        )[k] != dotdot(),
    ensures
        resolve(
            split_sep(from, 47u8).drop_last(),
            split_sep(rel_path_view(from, to), 47u8),
        ) == split_sep(to, 47u8),
{
    let d = split_sep(from, 47u8).drop_last();
    let t = split_sep(to, 47u8);
    let c = common_from(d, t, 0);
    lemma_common(d, t, 0);
    let ups = Seq::new((d.len() - c) as nat, |q: int| dotdot());
    let rel = ups + t.skip(c);
    if rel.len() == 0 {
        assert(c == d.len() && c == t.len());
        assert(d =~= t);
    }
    assert(rel.len() >= 1);
    lemma_split_no_sep(to, 47u8, 0);
    assert forall|k: int| 0 <= k < rel.len() implies seq_no_sep(#[trigger] rel[k], 47u8) by {
        if k < ups.len() {
            assert(rel[k] == dotdot());
            assert(dotdot()[0] == 46u8 && dotdot()[1] == 46u8);
        } else {
            assert(rel[k] == t[c + k - ups.len()]);
        }
    }
    lemma_split_join(rel, 47u8);
    assert(rel_path_view(from, to) == join_sep(rel, 47u8));
    lemma_resolve_ups(d, d.len() - c, t.skip(c));
    assert(d.take(d.len() - (d.len() - c)) =~= d.take(c));
    assert forall|q: int| 0 <= q < t.skip(c).len() implies t.skip(c)[q] != dotdot() by {
        assert(t.skip(c)[q] == t[c + q]);
    }
    lemma_resolve_plain(d.take(c), t.skip(c));
    assert forall|k: int| 0 <= k < t.len() implies (d.take(c) + t.skip(c))[k] == t[k] by {
        if k < c {
            assert(d.take(c)[k] == d[k]);
        } else {
            assert(t.skip(c)[k - c] == t[k]);
        }
    }
    assert(d.take(c) + t.skip(c) =~= t);
}

} // verus!
