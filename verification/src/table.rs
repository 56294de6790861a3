//! The label table: label -> (equation number, defining chapter path),
//! kept as an association list and viewed as a map.

use vstd::prelude::*;

use crate::bytes::bytes_eq;
use crate::model::{LabelInfoV, WarningV};

verus! {

/// What one label binds: the rendered equation number and the path of the
/// chapter that defined it.
#[derive(Debug, PartialEq, Eq)]
pub struct LabelInfo {
    pub num: Vec<u8>,
    pub path: Vec<u8>,
}

impl View for LabelInfo {
    type V = LabelInfoV;

    open spec fn view(&self) -> LabelInfoV {
        LabelInfoV { num: self.num@, path: self.path@ }
    }
}

/// A diagnostic emitted by one of the passes; never fatal.
#[derive(Debug, PartialEq, Eq)]
pub enum Warning {
    DuplicateLabel { label: Vec<u8>, num: Vec<u8> },
    UnresolvedReference { label: Vec<u8> },
}

impl View for Warning {
    type V = WarningV;

    open spec fn view(&self) -> WarningV {
        match self {
            Warning::DuplicateLabel { label, num } => WarningV::DuplicateLabel {
                label: label@,
                num: num@,
            },
            Warning::UnresolvedReference { label } => WarningV::UnresolvedReference {
                label: label@,
            },
        }
    }
}

/// The view of a sequence of warnings.
pub open spec fn warns_view(ws: Seq<Warning>) -> Seq<WarningV> {
    ws.map_values(|w: Warning| w@)
}

/// The map that an association list stands for; a later entry would win,
/// though the passes never add a label twice.
pub open spec fn map_of(es: Seq<(Vec<u8>, LabelInfo)>) -> Map<Seq<u8>, LabelInfoV>
    decreases es.len(),
{
    if es.len() == 0 {
        Map::empty()
    } else {
        map_of(es.drop_last()).insert(es.last().0@, es.last().1@)
    }
}

/// The mapping from labels to their equation numbers and defining chapters,
/// built by the numbering pass and read by the reference pass.
pub struct LabelTable {
    entries: Vec<(Vec<u8>, LabelInfo)>,
}

impl View for LabelTable {
    type V = Map<Seq<u8>, LabelInfoV>;

    closed spec fn view(&self) -> Map<Seq<u8>, LabelInfoV> {
        map_of(self.entries@)
    }
}

proof fn lemma_map_of_last(es: Seq<(Vec<u8>, LabelInfo)>, k: Seq<u8>, i: int)
    requires
        0 <= i < es.len(),
        es[i].0@ == k,
        forall|q: int| i < q < es.len() ==> (#[trigger] es[q]).0@ != k,
    ensures
        map_of(es).contains_key(k),
        map_of(es)[k] == es[i].1@,
    decreases es.len(),
{
    if i + 1 < es.len() {
        lemma_map_of_last(es.drop_last(), k, i);
    }
}

proof fn lemma_map_of_absent(es: Seq<(Vec<u8>, LabelInfo)>, k: Seq<u8>)
    requires
        forall|q: int| 0 <= q < es.len() ==> (#[trigger] es[q]).0@ != k,
    ensures
        !map_of(es).contains_key(k),
    decreases es.len(),
{
    if es.len() > 0 {
        lemma_map_of_absent(es.drop_last(), k);
    }
}

impl LabelTable {
    /// An empty table.
    pub fn new() -> (r: Self)
        ensures
            r@ == Map::<Seq<u8>, LabelInfoV>::empty(),
    {
        LabelTable { entries: Vec::new() }
    }

    /// The binding of `label`, if the table holds one.
    pub fn get(&self, label: &Vec<u8>) -> (r: Option<&LabelInfo>)
        ensures
            match r {
                Some(info) => self@.contains_key(label@) && self@[label@] == info@,
                None => !self@.contains_key(label@),
            },
    {
        let mut k: usize = self.entries.len();
        while k > 0
            invariant
                k <= self.entries.len(),
                forall|q: int| k <= q < self.entries.len()
                    ==> (#[trigger] self.entries@[q]).0@ != label@,
            decreases k,
        {
            k = k - 1;
            if bytes_eq(&self.entries[k].0, label) {
                proof {
                    lemma_map_of_last(self.entries@, label@, k as int);
                }
                return Some(&self.entries[k].1);
            }
        }
        proof {
            lemma_map_of_absent(self.entries@, label@);
        }
        None
    }

    /// Is the table empty?
    pub fn is_empty(&self) -> (r: bool)
        ensures
            r == (self@ == Map::<Seq<u8>, LabelInfoV>::empty()),
    {
        let r = self.entries.len() == 0;
        proof {
            if self.entries@.len() > 0 {
                let es = self.entries@;
                lemma_map_of_last(es, es.last().0@, es.len() - 1);
                assert(map_of(es).contains_key(es.last().0@));
            }
        }
        r
    }

    /// Does the table hold a binding for `label`?
    pub fn contains(&self, label: &Vec<u8>) -> (r: bool)
        ensures
            r == self@.contains_key(label@),
    {
        match self.get(label) {
            Some(_) => true,
            None => false,
        }
    }

    /// Binds `label`; the passes call it only for a fresh label.
    pub fn insert(&mut self, label: Vec<u8>, info: LabelInfo)
        ensures
            final(self)@ == old(self)@.insert(label@, info@),
    {
        let ghost es0 = self.entries@;
        self.entries.push((label, info));
        proof {
            assert(self.entries@.drop_last() =~= es0);
        }
    }
}

} // verus!
