//! A document: its text, and the trees of annotations made over it.

use vstd::prelude::*;
use vstd::string::StringExecFns;
use crate::tree_sequence::TreeSequence;

verus! {

/// A text together with a sequence of annotation trees.
pub struct AnnotatedDocument {
    doc_string: String,
    tree_sequence: TreeSequence,
}

impl AnnotatedDocument {
    /// The text.
    pub closed spec fn text(&self) -> Seq<char> {
        self.doc_string@
    }

    /// The annotation trees.
    pub closed spec fn trees(&self) -> TreeSequence {
        self.tree_sequence
    }

    /// A document over `text`, without annotations.
    pub fn new(text: &str) -> (d: AnnotatedDocument)
        ensures
            d.text() == text@,
            d.trees().wf(),
            d.trees()@ == Seq::<crate::node_label::NodeLabel>::empty(),
    {
        AnnotatedDocument { doc_string: String::from_str(text), tree_sequence: TreeSequence::new() }
    }

    /// The text.
    pub fn get_text(&self) -> (t: &str)
        ensures
            t@ == self.text(),
    {
        self.doc_string.as_str()
    }

    /// The annotation trees, for changing them.
    pub fn get_trees_mut(&mut self) -> (t: &mut TreeSequence)
        ensures
            *t == old(self).trees(),
            final(self).trees() == *final(t),
            final(self).text() == old(self).text(),
    {
        &mut self.tree_sequence
    }

    /// The annotation trees.
    pub fn get_trees(&self) -> (t: &TreeSequence)
        ensures
            *t == self.trees(),
    {
        &self.tree_sequence
    }
}

} // verus!
