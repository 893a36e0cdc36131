use vstd::prelude::*;

use crate::tree::{lemma_childless_single_row, lemma_node_views, spec_flatten, NodeV, TreeNode};
use crate::value::{Value, ValueV};

verus! {

/// The expand/collapse indicator drawn in front of a row: blank for a
/// leaf row, or the expanded or collapsed mark for a container with
/// children.
#[derive(Clone, Copy, PartialEq, Eq, Structural, Debug)]
pub enum Marker {
    Leaf,
    Expanded,
    Collapsed,
}

pub open spec fn spec_marker(n: NodeV) -> Marker {
    if n.value.is_container() {
        if n.children.len() == 0 {
            Marker::Leaf
        } else if n.expanded {
            Marker::Expanded
        } else {
            Marker::Collapsed
        }
    } else {
        Marker::Leaf
    }
}

/// The inline content of a row: the scalar's display text, a tagged
/// wrapper's pre-rendered inner value, an empty-container mark, a
/// collapsed-container summary, or nothing for an expanded container.
pub open spec fn spec_content(n: NodeV) -> Seq<char> {
    match n.value {
        ValueV::Null => "null"@,
        ValueV::Bool(b) => if b {
            "true"@
        } else {
            "false"@
        },
        ValueV::Number(s) => s,
        ValueV::Str(s) => s,
        ValueV::Tagged(t, _) => t,
        ValueV::Mapping(_) => if n.children.len() == 0 {
            "{}"@
        } else if n.expanded {
            Seq::empty()
        } else {
            "{...}"@
        },
        ValueV::Sequence(_) => if n.children.len() == 0 {
            "[]"@
        } else if n.expanded {
            Seq::empty()
        } else {
            "[...]"@
        },
    }
}

/// Whether the row's text carries the inline content: every row but an
/// expanded container's, whose children render as the following rows.
pub open spec fn spec_shows_content(n: NodeV) -> bool {
    !(n.value.is_container() && n.expanded)
}

impl TreeNode {
    pub fn marker(&self) -> (r: Marker)
        ensures
            r == spec_marker(self@),
    {
        proof {
            lemma_node_views(self.children@);
        }
        match &self.value {
            Value::Mapping(_) | Value::Sequence(_) => {
                if self.children.len() == 0 {
                    Marker::Leaf
                } else if self.expanded {
                    Marker::Expanded
                } else {
                    Marker::Collapsed
                }
            },
            _ => Marker::Leaf,
        }
    }

    pub fn inline_content(&self) -> (r: &str)
        ensures
            r@ == spec_content(self@),
    {
        proof {
            lemma_node_views(self.children@);
        }
        match &self.value {
            Value::Null => "null",
            Value::Bool(b) => if *b {
                "true"
            } else {
                "false"
            },
            Value::Number(s) => s.as_str(),
            Value::Str(s) => s.as_str(),
            Value::Tagged(t, _) => t.as_str(),
            Value::Mapping(_) => {
                if self.children.len() == 0 {
                    "{}"
                } else if self.expanded {
                    proof {
                        reveal_strlit("");
                        assert(""@ =~= Seq::<char>::empty());
                    }
                    ""
                } else {
                    "{...}"
                }
            },
            Value::Sequence(_) => {
                if self.children.len() == 0 {
                    "[]"
                } else if self.expanded {
                    proof {
                        reveal_strlit("");
                        assert(""@ =~= Seq::<char>::empty());
                    }
                    ""
                } else {
                    "[...]"
                }
            },
        }
    }

    pub fn shows_content(&self) -> (r: bool)
        ensures
            r == spec_shows_content(self@),
    {
        !(self.value.is_container() && self.expanded)
    }

    /// The expand/collapse status shown in the debug panel: meaningful
    /// only for containers.
    pub fn status_label(&self) -> (r: &'static str)
        ensures
            r@ == spec_status_label(self@),
    {
        if self.value.is_container() {
            if self.expanded {
                "Expanded"
            } else {
                "Collapsed"
            }
        } else {
            "N/A"
        }
    }
}

pub open spec fn spec_status_label(n: NodeV) -> Seq<char> {
    if n.value.is_container() {
        if n.expanded {
            "Expanded"@
        } else {
            "Collapsed"@
        }
    } else {
        "N/A"@
    }
}

/// A container node with no children (an empty mapping or sequence) always
/// makes a single leaf row, whatever its expand flag: one row in the view,
/// with the blank leaf marker.
pub proof fn lemma_childless_leaf_row(n: NodeV)
    requires
        n.value.is_container(),
        n.children.len() == 0,
    ensures
        spec_flatten(n) == seq![n],
        spec_marker(n) == Marker::Leaf,
{
    lemma_childless_single_row(n);
}

pub uninterp spec fn wrapped_of(text: Seq<char>, width: int) -> Seq<Seq<char>>;

/// Relies on `textwrap::wrap`: it splits the text into display lines for
/// the given width, and its result is a function of the text and the
/// width alone.
#[verifier::external_body]
fn wrap_text(text: &str, width: usize) -> (r: Vec<String>)
    ensures
        r@.len() == wrapped_of(text@, width as int).len(),
        forall|i: int| 0 <= i < r@.len() ==> (#[trigger] r@[i])@ == wrapped_of(
            text@,
            width as int,
        )[i],
{
    textwrap::wrap(text, width).into_iter().map(|line| line.into_owned()).collect()
}

/// The lines drawn for one visible row: the row's text wrapped to the
/// available width, with a blank spacer line between consecutive wrapped
/// lines.
#[verifier::loop_isolation(false)]
pub fn wrap_row(text: &str, width: usize) -> (r: Vec<String>)
    ensures
        ({
            let w = wrapped_of(text@, width as int);
            &&& r@.len() == if w.len() == 0 {
                0int
            } else {
                2 * w.len() - 1
            }
            &&& forall|i: int| 0 <= i < r@.len() ==> (#[trigger] r@[i])@ == if i % 2 == 0 {
                w[i / 2]
            } else {
                Seq::<char>::empty()
            }
        }),
{
    let lines = wrap_text(text, width);
    let mut r: Vec<String> = Vec::new();
    let mut j: usize = 0;
    while j < lines.len()
        invariant
            j <= lines@.len(),
            r@.len() == if j == 0 {
                0int
            } else {
                2 * j - 1
            },
            forall|i: int| 0 <= i < r@.len() ==> (#[trigger] r@[i])@ == if i % 2 == 0 {
                wrapped_of(text@, width as int)[i / 2]
            } else {
                Seq::<char>::empty()
            },
        decreases lines@.len() - j,
    {
        if j > 0 {
            r.push(String::new());
        }
        r.push(lines[j].clone());
        j += 1;
    }
    r
}

} // verus!
