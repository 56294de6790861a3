//! Tests of the numbering pass, the reference pass, the relative path
//! resolver and the whole two-pass run.

use mdbook_numeq::engine::{Book, Chapter, RunError};
use mdbook_numeq::eqs::find_and_replace_eqs;
use mdbook_numeq::path::compute_rel_path;
use mdbook_numeq::refs::find_and_replace_refs;
use mdbook_numeq::table::{LabelInfo, LabelTable, Warning};
use mdbook_numeq::NumEqPreprocessor;

fn chapter(path: &[u8], number: Option<&[u8]>, content: &[u8]) -> Chapter {
    Chapter {
        path: Some(path.to_vec()),
        number: number.map(|n| n.to_vec()),
        content: content.to_vec(),
        sub_items: Vec::new(),
    }
}

fn run_book(pre: &NumEqPreprocessor, sections: Vec<Chapter>) -> (Book, Vec<Warning>) {
    pre.run(Book { sections }).ok().unwrap()
}

#[test]
fn no_label() {
    let mut refs = LabelTable::new();
    let mut ctr: usize = 0;
    let mut warns: Vec<Warning> = Vec::new();
    let input = b"{{numeq}}".to_vec();
    let prefix = b"1.2.".to_vec();
    let path = b"crypto/groups.md".to_vec();
    let output = find_and_replace_eqs(&input, &prefix, &path, &mut refs, &mut ctr, &mut warns);
    let expected = b"\\tag{1.2.1}".to_vec();
    assert_eq!(output, expected);
    assert!(refs.is_empty());
}

#[test]
fn with_label() {
    let mut refs = LabelTable::new();
    let mut ctr: usize = 0;
    let mut warns: Vec<Warning> = Vec::new();
    let input = b"{{numeq}}{eq:test}".to_vec();
    let prefix = b"1.2.".to_vec();
    let path = b"crypto/groups.md".to_vec();
    let output = find_and_replace_eqs(&input, &prefix, &path, &mut refs, &mut ctr, &mut warns);
    let expected = b"\\htmlId{eq:test}{} \\tag{1.2.1}".to_vec();
    assert_eq!(output, expected);
    assert_eq!(
        *refs.get(&b"eq:test".to_vec()).unwrap(),
        LabelInfo { num: b"1.2.1".to_vec(), path: b"crypto/groups.md".to_vec() }
    );
}

#[test]
fn scenario_no_prefix_no_label() {
    let pre = NumEqPreprocessor::from_options(false, 0, false);
    let (book, warns) = run_book(&pre, vec![chapter(b"ch.md", None, b"x {{numeq}} y")]);
    assert_eq!(book.sections[0].content, b"x \\tag{1} y".to_vec());
    assert!(warns.is_empty());
}

#[test]
fn scenario_no_prefix_with_label() {
    let pre = NumEqPreprocessor::from_options(false, 0, false);
    let (book, _) = run_book(&pre, vec![chapter(b"ch.md", None, b"{{numeq}}{eq:test}")]);
    assert_eq!(
        book.sections[0].content,
        b"\\htmlId{eq:test}{} \\tag{1}".to_vec()
    );
}

#[test]
fn label_table_after_pass() {
    let mut refs = LabelTable::new();
    let mut ctr: usize = 0;
    let mut warns: Vec<Warning> = Vec::new();
    let input = b"{{numeq}}{eq:test}".to_vec();
    let prefix = Vec::new();
    let path = b"ch.md".to_vec();
    find_and_replace_eqs(&input, &prefix, &path, &mut refs, &mut ctr, &mut warns);
    assert_eq!(
        *refs.get(&b"eq:test".to_vec()).unwrap(),
        LabelInfo { num: b"1".to_vec(), path: b"ch.md".to_vec() }
    );
    assert_eq!(ctr, 1);
}

#[test]
fn depth_one_prefix_and_reset() {
    let pre = NumEqPreprocessor::from_options(true, 1, false);
    let (book, warns) = run_book(
        &pre,
        vec![
            chapter(b"a.md", Some(b"1.2."), b"{{numeq}} {{numeq}}"),
            chapter(b"b.md", Some(b"2.1."), b"{{numeq}}"),
        ],
    );
    assert_eq!(book.sections[0].content, b"\\tag{1.1} \\tag{1.2}".to_vec());
    assert_eq!(book.sections[1].content, b"\\tag{2.1}".to_vec());
    assert!(warns.is_empty());
}

#[test]
fn duplicate_label_keeps_first_binding() {
    let mut refs = LabelTable::new();
    let mut ctr: usize = 0;
    let mut warns: Vec<Warning> = Vec::new();
    let input = b"{{numeq}}{eq:dup} {{numeq}}{eq:dup}".to_vec();
    let prefix = Vec::new();
    let path = b"ch.md".to_vec();
    let output = find_and_replace_eqs(&input, &prefix, &path, &mut refs, &mut ctr, &mut warns);
    assert_eq!(
        output,
        b"\\htmlId{eq:dup}{} \\tag{1} \\htmlId{eq:dup}{} \\tag{2}".to_vec()
    );
    assert_eq!(
        *refs.get(&b"eq:dup".to_vec()).unwrap(),
        LabelInfo { num: b"1".to_vec(), path: b"ch.md".to_vec() }
    );
    assert_eq!(
        warns,
        vec![Warning::DuplicateLabel { label: b"eq:dup".to_vec(), num: b"2".to_vec() }]
    );
}

#[test]
fn unresolved_reference_marker() {
    let pre = NumEqPreprocessor::from_options(false, 0, false);
    let (book, warns) = run_book(&pre, vec![chapter(b"ch.md", None, b"{{eqref: eq:missing}}")]);
    assert_eq!(book.sections[0].content, b"**[??]**".to_vec());
    assert_eq!(
        warns,
        vec![Warning::UnresolvedReference { label: b"eq:missing".to_vec() }]
    );
}

#[test]
fn cross_chapter_reference() {
    let pre = NumEqPreprocessor::from_options(false, 0, false);
    let (book, warns) = run_book(
        &pre,
        vec![
            chapter(b"a/intro.md", None, b"{{numeq}} {{numeq}} {{numeq}}{eq:main}"),
            chapter(b"b/detail.md", None, b"see {{eqref: eq:main}}"),
        ],
    );
    assert_eq!(
        book.sections[1].content,
        b"see [(3)](../a/intro.md#eq:main)".to_vec()
    );
    assert!(warns.is_empty());
}

#[test]
fn same_chapter_reference_has_empty_path() {
    let pre = NumEqPreprocessor::from_options(false, 0, false);
    let (book, _) = run_book(
        &pre,
        vec![chapter(b"ch.md", None, b"{{numeq}}{eq:a} and {{eqref:eq:a}}")],
    );
    assert_eq!(
        book.sections[0].content,
        b"\\htmlId{eq:a}{} \\tag{1} and [(1)](#eq:a)".to_vec()
    );
}

#[test]
fn rel_path_to_self_is_empty() {
    let p = b"a/b/c.md".to_vec();
    assert_eq!(compute_rel_path(&p, &p), Vec::<u8>::new());
}

#[test]
fn rel_path_sibling_and_ancestor() {
    assert_eq!(
        compute_rel_path(&b"a/x.md".to_vec(), &b"a/y.md".to_vec()),
        b"y.md".to_vec()
    );
    assert_eq!(
        compute_rel_path(&b"a/b/x.md".to_vec(), &b"top.md".to_vec()),
        b"../../top.md".to_vec()
    );
    assert_eq!(
        compute_rel_path(&b"x.md".to_vec(), &b"a/y.md".to_vec()),
        b"a/y.md".to_vec()
    );
}

#[test]
fn content_without_placeholders_is_unchanged() {
    let pre = NumEqPreprocessor::from_options(true, 2, true);
    let text: &[u8] = b"plain text with {braces} and a \\tag{9} already";
    let (book, warns) = run_book(&pre, vec![chapter(b"ch.md", Some(b"1.1."), text)]);
    assert_eq!(book.sections[0].content, text.to_vec());
    assert!(warns.is_empty());
}

#[test]
fn draft_chapter_is_skipped_but_children_visited() {
    let pre = NumEqPreprocessor::from_options(false, 0, false);
    let draft = Chapter {
        path: None,
        number: None,
        content: b"{{numeq}}".to_vec(),
        sub_items: vec![chapter(b"sub.md", None, b"{{numeq}}")],
    };
    let (book, _) = run_book(&pre, vec![draft]);
    assert_eq!(book.sections[0].content, b"{{numeq}}".to_vec());
    assert_eq!(book.sections[0].sub_items[0].content, b"\\tag{1}".to_vec());
}

#[test]
fn global_counter_spans_chapters() {
    let pre = NumEqPreprocessor::from_options(false, 0, true);
    let (book, _) = run_book(
        &pre,
        vec![
            chapter(b"a.md", None, b"{{numeq}}"),
            chapter(b"b.md", None, b"{{numeq}}"),
        ],
    );
    assert_eq!(book.sections[0].content, b"\\tag{1}".to_vec());
    assert_eq!(book.sections[1].content, b"\\tag{2}".to_vec());
}

#[test]
fn non_global_counter_resets_per_chapter() {
    let pre = NumEqPreprocessor::from_options(false, 0, false);
    let (book, _) = run_book(
        &pre,
        vec![
            chapter(b"a.md", None, b"{{numeq}}"),
            chapter(b"b.md", None, b"{{numeq}}"),
        ],
    );
    assert_eq!(book.sections[0].content, b"\\tag{1}".to_vec());
    assert_eq!(book.sections[1].content, b"\\tag{1}".to_vec());
}

#[test]
fn two_digit_numbers_render_in_decimal() {
    let mut refs = LabelTable::new();
    let mut ctr: usize = 9;
    let mut warns: Vec<Warning> = Vec::new();
    let input = b"{{numeq}} {{numeq}}".to_vec();
    let prefix = Vec::new();
    let path = b"ch.md".to_vec();
    let output = find_and_replace_eqs(&input, &prefix, &path, &mut refs, &mut ctr, &mut warns);
    assert_eq!(output, b"\\tag{10} \\tag{11}".to_vec());
    assert_eq!(ctr, 11);
}

#[test]
fn unterminated_label_is_plain_token() {
    let mut refs = LabelTable::new();
    let mut ctr: usize = 0;
    let mut warns: Vec<Warning> = Vec::new();
    let input = b"{{numeq}}{abc".to_vec();
    let prefix = Vec::new();
    let path = b"ch.md".to_vec();
    let output = find_and_replace_eqs(&input, &prefix, &path, &mut refs, &mut ctr, &mut warns);
    assert_eq!(output, b"\\tag{1}{abc".to_vec());
    assert!(refs.is_empty());
}

#[test]
fn malformed_section_number_is_fatal() {
    let pre = NumEqPreprocessor::from_options(true, 1, false);
    let r = pre.run(Book { sections: vec![chapter(b"a.md", Some(b"x.1."), b"{{numeq}}")] });
    assert!(matches!(r, Err(RunError::MalformedSectionNumber)));
}

#[test]
fn missing_section_number_resets_and_prints_no_prefix() {
    let pre = NumEqPreprocessor::from_options(true, 1, false);
    let (book, _) = run_book(
        &pre,
        vec![
            chapter(b"a.md", Some(b"3."), b"{{numeq}}"),
            chapter(b"front.md", None, b"{{numeq}}"),
        ],
    );
    assert_eq!(book.sections[0].content, b"\\tag{3.1}".to_vec());
    assert_eq!(book.sections[1].content, b"\\tag{1}".to_vec());
}

#[test]
fn reference_pass_sees_labels_from_later_chapters() {
    let pre = NumEqPreprocessor::from_options(false, 0, false);
    let (book, warns) = run_book(
        &pre,
        vec![
            chapter(b"a.md", None, b"{{eqref:eq:later}}"),
            chapter(b"b.md", None, b"{{numeq}}{eq:later}"),
        ],
    );
    assert_eq!(book.sections[0].content, b"[(1)](b.md#eq:later)".to_vec());
    assert!(warns.is_empty());
}

#[test]
fn depth_two_pads_short_section_numbers() {
    let pre = NumEqPreprocessor::from_options(true, 2, false);
    let (book, _) = run_book(
        &pre,
        vec![
            chapter(b"a.md", Some(b"1."), b"{{numeq}}"),
            chapter(b"b.md", Some(b"1.1."), b"{{numeq}}"),
        ],
    );
    // "1." pads to (1, 0), which matches the initial vector; "1.1." differs
    // and resets the counter.
    assert_eq!(book.sections[0].content, b"\\tag{1.0.1}".to_vec());
    assert_eq!(book.sections[1].content, b"\\tag{1.1.1}".to_vec());
}

#[test]
fn empty_reference_label_is_unresolved() {
    let pre = NumEqPreprocessor::from_options(false, 0, false);
    let (book, warns) = run_book(&pre, vec![chapter(b"ch.md", None, b"{{eqref:}}")]);
    assert_eq!(book.sections[0].content, b"**[??]**".to_vec());
    assert_eq!(warns, vec![Warning::UnresolvedReference { label: Vec::new() }]);
}

#[test]
fn reference_with_newline_before_close_is_not_a_match() {
    let pre = NumEqPreprocessor::from_options(false, 0, false);
    let text: &[u8] = b"{{eqref: a\nb}}";
    let (book, warns) = run_book(&pre, vec![chapter(b"ch.md", None, text)]);
    assert_eq!(book.sections[0].content, text.to_vec());
    assert!(warns.is_empty());
}

#[test]
fn reference_label_whitespace_is_trimmed() {
    let pre = NumEqPreprocessor::from_options(false, 0, false);
    let (book, warns) = run_book(
        &pre,
        vec![chapter(b"ch.md", None, b"{{numeq}}{eq:a} {{eqref: eq:a }}")],
    );
    assert_eq!(
        book.sections[0].content,
        b"\\htmlId{eq:a}{} \\tag{1} [(1)](#eq:a)".to_vec()
    );
    assert!(warns.is_empty());
}

#[test]
fn labels_do_not_collide_across_chapters() {
    let mut refs = LabelTable::new();
    let mut ctr: usize = 0;
    let mut warns: Vec<Warning> = Vec::new();
    let a = b"{{numeq}}{eq:one}".to_vec();
    let b = b"{{numeq}}{eq:two}".to_vec();
    let prefix = Vec::new();
    find_and_replace_eqs(&a, &prefix, &b"a.md".to_vec(), &mut refs, &mut ctr, &mut warns);
    find_and_replace_eqs(&b, &prefix, &b"b.md".to_vec(), &mut refs, &mut ctr, &mut warns);
    assert_eq!(
        *refs.get(&b"eq:one".to_vec()).unwrap(),
        LabelInfo { num: b"1".to_vec(), path: b"a.md".to_vec() }
    );
    assert_eq!(
        *refs.get(&b"eq:two".to_vec()).unwrap(),
        LabelInfo { num: b"2".to_vec(), path: b"b.md".to_vec() }
    );
    let mut w2: Vec<Warning> = Vec::new();
    let out = find_and_replace_refs(
        &b"{{eqref:eq:one}}".to_vec(),
        &b"b.md".to_vec(),
        &refs,
        &mut w2,
    );
    assert_eq!(out, b"[(1)](a.md#eq:one)".to_vec());
}
