use vstd::prelude::*;
use vstd::std_specs::cmp::PartialEqSpecImpl;

verus! {

/// The mathematical tree that a [`Value`] stands for.
pub enum Tree {
    Null,
    Boolean(bool),
    Array(Seq<Tree>),
}

/// A parsed value: `null`, a boolean, or an array of values in the order in
/// which they were written.
#[derive(Debug)]
pub enum Value {
    Null,
    Boolean(bool),
    Array(Vec<Value>),
}

impl View for Value {
    type V = Tree;

    open spec fn view(&self) -> Tree
        decreases self,
    {
        match self {
            Value::Null => Tree::Null,
            Value::Boolean(b) => Tree::Boolean(*b),
            Value::Array(items) => Tree::Array(Seq::new(
                items@.len(),
                |i: int| if 0 <= i < items@.len() { items@[i].view() } else { Tree::Null },
            )),
        }
    }
}

impl PartialEq for Value {
    /// Two values are equal when they stand for the same tree.
    fn eq(&self, other: &Value) -> (same: bool)
        decreases self,
    {
        match (self, other) {
            (Value::Null, Value::Null) => true,
            (Value::Boolean(a), Value::Boolean(b)) => *a == *b,
            (Value::Array(a), Value::Array(b)) => {
                let ghost xs = self@->Array_0;
                let ghost ys = other@->Array_0;
                if a.len() != b.len() {
                    return false;
                }
                let mut i: usize = 0;
                while i < a.len()
                    invariant
                        self@ == Tree::Array(xs),
                        other@ == Tree::Array(ys),
                        xs.len() == a@.len() == b@.len() == ys.len(),
                        forall|j: int| 0 <= j < xs.len() ==> xs[j] == (#[trigger] a@[j])@,
                        forall|j: int| 0 <= j < ys.len() ==> ys[j] == (#[trigger] b@[j])@,
                        decreases_to!(self => a@),
                        i <= a@.len(),
                        forall|j: int| 0 <= j < i ==> xs[j] == ys[j],
                    decreases a@.len() - i,
                {
                    if !a[i].eq(&b[i]) {
                        return false;
                    }
                    i += 1;
                }
                assert(xs =~= ys);
                true
            },
            _ => false,
        }
    }
}

impl PartialEqSpecImpl for Value {
    open spec fn obeys_eq_spec() -> bool {
        true
    }

    open spec fn eq_spec(&self, other: &Value) -> bool {
        self@ == other@
    }
}

} // verus!
