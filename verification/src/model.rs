//! The mathematical model of both passes: placeholder grammar, rewriting,
//! label table contents, counter threading and relative paths, all as spec
//! functions over byte sequences.

use vstd::prelude::*;

verus! {

/// What the label table records for one label.
pub struct LabelInfoV {
    /// The rendered equation number, e.g. "1.2.3".
    pub num: Seq<u8>,
    /// The path of the chapter where the label was defined.
    pub path: Seq<u8>,
}

/// A diagnostic emitted by one of the passes; never fatal.
pub enum WarningV {
    DuplicateLabel { label: Seq<u8>, num: Seq<u8> },
    UnresolvedReference { label: Seq<u8> },
}

/// Result of rewriting one content string in the numbering pass.
pub struct EqScanV {
    pub out: Seq<u8>,
    pub table: Map<Seq<u8>, LabelInfoV>,
    pub ctr: nat,
    pub warns: Seq<WarningV>,
}

/// Result of rewriting one content string in the reference pass.
pub struct RefScanV {
    pub out: Seq<u8>,
    pub warns: Seq<WarningV>,
}

// ---------------------------------------------------------------------------
// Fixed byte strings of the placeholder grammar and the rendered markup.
// ---------------------------------------------------------------------------

/// "{{numeq}}"
pub open spec fn numeq_token() -> Seq<u8> {
    seq![123u8, 123u8, 110u8, 117u8, 109u8, 101u8, 113u8, 125u8, 125u8]
}

/// "{{eqref:"
pub open spec fn eqref_token() -> Seq<u8> {
    seq![123u8, 123u8, 101u8, 113u8, 114u8, 101u8, 102u8, 58u8]
}

/// "\tag{"
pub open spec fn tag_open() -> Seq<u8> {
    seq![92u8, 116u8, 97u8, 103u8, 123u8]
}

/// "\htmlId{"
pub open spec fn htmlid_open() -> Seq<u8> {
    seq![92u8, 104u8, 116u8, 109u8, 108u8, 73u8, 100u8, 123u8]
}

/// "}{} "
pub open spec fn htmlid_mid() -> Seq<u8> {
    seq![125u8, 123u8, 125u8, 32u8]
}

/// "}"
pub open spec fn close_brace() -> Seq<u8> {
    seq![125u8]
}

/// "**[??]**"
pub open spec fn broken_ref() -> Seq<u8> {
    seq![42u8, 42u8, 91u8, 63u8, 63u8, 93u8, 42u8, 42u8]
}

/// "[("
pub open spec fn link_open() -> Seq<u8> {
    seq![91u8, 40u8]
}

/// ")]("
pub open spec fn link_mid() -> Seq<u8> {
    seq![41u8, 93u8, 40u8]
}

/// ".."
pub open spec fn dotdot() -> Seq<u8> {
    seq![46u8, 46u8]
}

// ---------------------------------------------------------------------------
// Decimal rendering.
// ---------------------------------------------------------------------------

/// The decimal digits of `n`, most significant first.
pub open spec fn dec_rep(n: nat) -> Seq<u8>
    decreases n,
{
    if n < 10 {
        seq![(48 + n) as u8]
    } else {
        dec_rep(n / 10).push((48 + n % 10) as u8)
    }
}

/// The value of a digit string, most significant first.
pub open spec fn dec_val(s: Seq<u8>) -> nat
    decreases s.len(),
{
    if s.len() == 0 {
        0
    } else {
        dec_val(s.drop_last()) * 10 + (s.last() - 48) as nat
    }
}

pub open spec fn is_digit(c: u8) -> bool {
    48 <= c <= 57
}

pub open spec fn all_digits(s: Seq<u8>) -> bool {
    forall|k: int| 0 <= k < s.len() ==> is_digit(#[trigger] s[k])
}

// ---------------------------------------------------------------------------
// Scanning for equation placeholders: "{{numeq}}" optionally followed by a
// braced label whose text runs to the first closing brace and may not hold
// a newline.
// ---------------------------------------------------------------------------

/// Position of the first closing brace at or after `p`, unless a newline or
/// the end of the text comes first.
pub open spec fn brace_end(s: Seq<u8>, p: int) -> Option<int>
    decreases s.len() - p,
{
    if p < 0 || p >= s.len() {
        None
    } else if s[p] == 125u8 {
        Some(p)
    } else if s[p] == 10u8 {
        None
    } else {
        brace_end(s, p + 1)
    }
}

pub proof fn lemma_brace_end(s: Seq<u8>, p: int)
    ensures
        brace_end(s, p).is_some() ==> p <= brace_end(s, p).unwrap() < s.len(),
    decreases s.len() - p,
{
    if 0 <= p && p < s.len() && s[p] != 125u8 && s[p] != 10u8 {
        lemma_brace_end(s, p + 1);
    }
}

/// Does an equation placeholder token start at `i`?
pub open spec fn eq_token_at(s: Seq<u8>, i: int) -> bool {
    0 <= i && i + 9 <= s.len() && s.subrange(i, i + 9) == numeq_token()
}

/// If the token at `i` carries a label, the position of its closing brace.
pub open spec fn eq_label_at(s: Seq<u8>, i: int) -> Option<int> {
    if i + 10 <= s.len() && s[i + 9] == 123u8 {
        brace_end(s, i + 10)
    } else {
        None
    }
}

/// One linear left-to-right scan of `s` from position `i`: every equation
/// placeholder is replaced by its rendered markup, the counter advances by
/// one per placeholder, labels are recorded first-writer-wins, and a
/// duplicate label leaves the table unchanged and adds a warning.
pub open spec fn rewrite_eqs_at(
    s: Seq<u8>,
    i: int,
    prefix: Seq<u8>,
    path: Seq<u8>,
    table: Map<Seq<u8>, LabelInfoV>,
    ctr: nat,
    warns: Seq<WarningV>,
) -> EqScanV
    decreases s.len() - i via rewrite_eqs_at_dec
{
    if i < 0 || i >= s.len() {
        EqScanV { out: Seq::empty(), table, ctr, warns }
    } else if eq_token_at(s, i) {
        let n = ctr + 1;
        let num = prefix + dec_rep(n);
        match eq_label_at(s, i) {
            Some(j) => {
                let label = s.subrange(i + 10, j);
                let rep = htmlid_open() + label + htmlid_mid() + tag_open() + num
                    + close_brace();
                if table.contains_key(label) {
                    let r = rewrite_eqs_at(
                        s,
                        j + 1,
                        prefix,
                        path,
                        table,
                        n,
                        warns.push(WarningV::DuplicateLabel { label, num }),
                    );
                    EqScanV { out: rep + r.out, table: r.table, ctr: r.ctr, warns: r.warns }
                } else {
                    let r = rewrite_eqs_at(
                        s,
                        j + 1,
                        prefix,
                        path,
                        table.insert(label, LabelInfoV { num, path }),
                        n,
                        warns,
                    );
                    EqScanV { out: rep + r.out, table: r.table, ctr: r.ctr, warns: r.warns }
                }
            },
            None => {
                let rep = tag_open() + num + close_brace();
                let r = rewrite_eqs_at(s, i + 9, prefix, path, table, n, warns);
                EqScanV { out: rep + r.out, table: r.table, ctr: r.ctr, warns: r.warns }
            },
        }
    } else {
        let r = rewrite_eqs_at(s, i + 1, prefix, path, table, ctr, warns);
        EqScanV { out: seq![s[i]] + r.out, table: r.table, ctr: r.ctr, warns: r.warns }
    }
}

#[via_fn]
proof fn rewrite_eqs_at_dec(
    s: Seq<u8>,
    i: int,
    prefix: Seq<u8>,
    path: Seq<u8>,
    table: Map<Seq<u8>, LabelInfoV>,
    ctr: nat,
    warns: Seq<WarningV>,
) {
    lemma_brace_end(s, i + 10);
}

// ---------------------------------------------------------------------------
// Scanning for reference placeholders: "{{eqref:" then whitespace, then a
// label running to the first "}}", newline-free after the whitespace.
// ---------------------------------------------------------------------------

pub open spec fn is_ws(c: u8) -> bool {
    c == 32u8 || c == 9u8 || c == 10u8 || c == 11u8 || c == 12u8 || c == 13u8
}

/// End of the maximal whitespace run starting at `p`.
pub open spec fn ws_end(s: Seq<u8>, p: int) -> int
    decreases s.len() - p,
{
    if p < 0 || p >= s.len() {
        p
    } else if is_ws(s[p]) {
        ws_end(s, p + 1)
    } else {
        p
    }
}

pub proof fn lemma_ws_end(s: Seq<u8>, p: int)
    requires
        0 <= p <= s.len(),
    ensures
        p <= ws_end(s, p) <= s.len(),
    decreases s.len() - p,
{
    if p < s.len() && is_ws(s[p]) {
        lemma_ws_end(s, p + 1);
    }
}

/// `s` without its trailing whitespace.
pub open spec fn trim_ws(s: Seq<u8>) -> Seq<u8>
    decreases s.len(),
{
    if s.len() > 0 && is_ws(s.last()) {
        trim_ws(s.drop_last())
    } else {
        s
    }
}

/// Position of the first "}}" at or after `p`, unless a newline or the end
/// of the text comes first.
pub open spec fn dbrace_end(s: Seq<u8>, p: int) -> Option<int>
    decreases s.len() - p,
{
    if p < 0 || p + 2 > s.len() {
        None
    } else if s[p] == 125u8 && s[p + 1] == 125u8 {
        Some(p)
    } else if s[p] == 10u8 {
        None
    } else {
        dbrace_end(s, p + 1)
    }
}

pub proof fn lemma_dbrace_end(s: Seq<u8>, p: int)
    ensures
        dbrace_end(s, p).is_some() ==> p <= dbrace_end(s, p).unwrap()
            && dbrace_end(s, p).unwrap() + 2 <= s.len(),
    decreases s.len() - p,
{
    if 0 <= p && p + 2 <= s.len() && !(s[p] == 125u8 && s[p + 1] == 125u8) && s[p] != 10u8 {
        lemma_dbrace_end(s, p + 1);
    }
}

/// Does a reference placeholder token start at `i`?
pub open spec fn ref_token_at(s: Seq<u8>, i: int) -> bool {
    0 <= i && i + 8 <= s.len() && s.subrange(i, i + 8) == eqref_token()
}

/// A full reference placeholder at `i`: the token, a whitespace run, a
/// newline-free label, then "}}".
pub open spec fn ref_match_at(s: Seq<u8>, i: int) -> bool {
    ref_token_at(s, i) && dbrace_end(s, ws_end(s, i + 8)).is_some()
}

/// One linear left-to-right scan of `s` from position `i`: every reference
/// placeholder whose label is in the table becomes a link to the defining
/// chapter; every other one becomes the broken-reference marker plus a
/// warning.
pub open spec fn rewrite_refs_at(
    s: Seq<u8>,
    i: int,
    chap_path: Seq<u8>,
    table: Map<Seq<u8>, LabelInfoV>,
    warns: Seq<WarningV>,
) -> RefScanV
    decreases s.len() - i via rewrite_refs_at_dec
{
    if i < 0 || i >= s.len() {
        RefScanV { out: Seq::empty(), warns }
    } else if ref_match_at(s, i) {
        let w = ws_end(s, i + 8);
        let j = dbrace_end(s, w).unwrap();
        let label = trim_ws(s.subrange(w, j));
        if table.contains_key(label) {
            let info = table[label];
            let rel = rel_path_view(chap_path, info.path);
            let rep = link_open() + info.num + link_mid() + rel + seq![35u8] + label
                + seq![41u8];
            let r = rewrite_refs_at(s, j + 2, chap_path, table, warns);
            RefScanV { out: rep + r.out, warns: r.warns }
        } else {
            let r = rewrite_refs_at(
                s,
                j + 2,
                chap_path,
                table,
                warns.push(WarningV::UnresolvedReference { label }),
            );
            RefScanV { out: broken_ref() + r.out, warns: r.warns }
        }
    } else {
        let r = rewrite_refs_at(s, i + 1, chap_path, table, warns);
        RefScanV { out: seq![s[i]] + r.out, warns: r.warns }
    }
}

#[via_fn]
proof fn rewrite_refs_at_dec(
    s: Seq<u8>,
    i: int,
    chap_path: Seq<u8>,
    table: Map<Seq<u8>, LabelInfoV>,
    warns: Seq<WarningV>,
) {
    if 0 <= i && i + 8 <= s.len() {
        lemma_ws_end(s, i + 8);
        lemma_dbrace_end(s, ws_end(s, i + 8));
    }
}

// ---------------------------------------------------------------------------
// Relative paths, computed lexically on '/'-separated components.
// ---------------------------------------------------------------------------

/// Position of the first `sep` at or after `p`, or the length of `s`.
pub open spec fn sep_pos(s: Seq<u8>, sep: u8, p: int) -> int
    decreases s.len() - p,
{
    if p < 0 || p >= s.len() {
        s.len() as int
    } else if s[p] == sep {
        p
    } else {
        sep_pos(s, sep, p + 1)
    }
}

pub proof fn lemma_sep_pos(s: Seq<u8>, sep: u8, p: int)
    requires
        0 <= p <= s.len(),
    ensures
        p <= sep_pos(s, sep, p) <= s.len(),
    decreases s.len() - p,
{
    if p < s.len() && s[p] != sep {
        lemma_sep_pos(s, sep, p + 1);
    }
}

/// The components of `s` from `p` on, split at `sep`.
pub open spec fn split_from(s: Seq<u8>, sep: u8, p: int) -> Seq<Seq<u8>>
    decreases s.len() - p via split_from_dec
{
    let k = sep_pos(s, sep, p);
    if k == s.len() {
        seq![s.subrange(p, s.len() as int)]
    } else {
        seq![s.subrange(p, k)] + split_from(s, sep, k + 1)
    }
}

#[via_fn]
proof fn split_from_dec(s: Seq<u8>, sep: u8, p: int) {
    if 0 <= p && p <= s.len() {
        lemma_sep_pos(s, sep, p);
    }
}

pub open spec fn split_sep(s: Seq<u8>, sep: u8) -> Seq<Seq<u8>> {
    split_from(s, sep, 0)
}

/// The components joined with `sep` between each two.
pub open spec fn join_sep(cs: Seq<Seq<u8>>, sep: u8) -> Seq<u8>
    decreases cs.len(),
{
    if cs.len() == 0 {
        Seq::empty()
    } else if cs.len() == 1 {
        cs[0]
    } else {
        cs[0] + seq![sep] + join_sep(cs.drop_first(), sep)
    }
}

/// How many leading components `a` and `b` share, counting from `i`.
pub open spec fn common_from(a: Seq<Seq<u8>>, b: Seq<Seq<u8>>, i: int) -> int
    decreases a.len() - i,
{
    if i < 0 || i >= a.len() || i >= b.len() || a[i] != b[i] {
        i
    } else {
        common_from(a, b, i + 1)
    }
}

// ---------------------------------------------------------------------------
// Section numbers: "1.2." style strings, their numeric components, and the
// printed prefix of the numbering pass.
// ---------------------------------------------------------------------------

/// `s` without its trailing dots.
pub open spec fn trim_dots(s: Seq<u8>) -> Seq<u8>
    decreases s.len(),
{
    if s.len() > 0 && s.last() == 46u8 {
        trim_dots(s.drop_last())
    } else {
        s
    }
}

/// A parseable section-number component: nonempty digits whose value fits
/// the machine.
pub open spec fn valid_comp(s: Seq<u8>) -> bool {
    s.len() > 0 && all_digits(s) && dec_val(s) <= usize::MAX
}

/// The dot-separated components of a section-number string.
pub open spec fn secnum_comps(s: Seq<u8>) -> Seq<Seq<u8>> {
    split_sep(trim_dots(s), 46u8)
}

/// Is every component of the section number parseable?
pub open spec fn valid_secnum(s: Seq<u8>) -> bool {
    forall|k: int| 0 <= k < secnum_comps(s).len() ==> valid_comp(#[trigger] secnum_comps(s)[k])
}

/// The numeric values of the components.
pub open spec fn comp_vals(s: Seq<u8>) -> Seq<nat> {
    secnum_comps(s).map_values(|c: Seq<u8>| dec_val(c))
}

/// The first `depth` component values, padded with trailing zeros.
pub open spec fn depth_comps(s: Seq<u8>, depth: int) -> Seq<nat> {
    Seq::new(
        depth as nat,
        |k: int| if k < comp_vals(s).len() {
            comp_vals(s)[k]
        } else {
            0nat
        },
    )
}

/// The printed prefix: each component followed by a dot, e.g. "1.2.".
pub open spec fn render_ccn(v: Seq<nat>) -> Seq<u8>
    decreases v.len(),
{
    if v.len() == 0 {
        Seq::empty()
    } else {
        render_ccn(v.drop_last()) + dec_rep(v.last()) + seq![46u8]
    }
}

/// The initial chapter-number vector: a one followed by zeros, as long as
/// the configured depth.
pub open spec fn init_ccn(depth: int) -> Seq<nat> {
    if depth <= 0 {
        Seq::empty()
    } else {
        Seq::new(
            depth as nat,
            |k: int| if k == 0 {
                1nat
            } else {
                0nat
            },
        )
    }
}

/// The relative path from the directory holding `from` to the file `to`:
/// empty for the same file, otherwise one ".." per component of the
/// directory past the common prefix, then the rest of `to`.
pub open spec fn rel_path_view(from: Seq<u8>, to: Seq<u8>) -> Seq<u8> {
    if from == to {
        Seq::empty()
    } else {
        let d = split_sep(from, 47u8).drop_last();
        let t = split_sep(to, 47u8);
        let c = common_from(d, t, 0);
        join_sep(Seq::new((d.len() - c) as nat, |k: int| dotdot()) + t.skip(c), 47u8)
    }
}

} // verus!
