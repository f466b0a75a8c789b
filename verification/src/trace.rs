use vstd::prelude::*;

verus! {

/// A single node of a call-trace tree: one call and its nested sub-calls,
/// in their original order. Fields that the raw trace leaves out are held
/// as empty strings.
pub struct TraceNode {
    pub call_type: String,
    pub input: String,
    pub from: String,
    pub to: String,
    pub calls: Vec<TraceNode>,
}

/// The minimal extract of one call: its kind, the selector taken from its
/// calldata, and the two addresses.
pub struct FlatCall {
    pub call_type: String,
    pub selector: String,
    pub from: String,
    pub to: String,
}

/// The mathematical shadow of a `FlatCall`.
pub struct CallView {
    pub call_type: Seq<char>,
    pub selector: Seq<char>,
    pub from: Seq<char>,
    pub to: Seq<char>,
}

impl View for FlatCall {
    type V = CallView;

    open spec fn view(&self) -> CallView {
        CallView {
            call_type: self.call_type@,
            selector: self.selector@,
            from: self.from@,
            to: self.to@,
        }
    }
}

/// The selector carried by a call's input data: its first ten characters
/// ("0x" and eight hex digits); empty when the input is shorter, as for a
/// plain value transfer.
pub open spec fn selector_of(input: Seq<char>) -> Seq<char> {
    if input.len() >= 10 {
        input.take(10)
    } else {
        Seq::empty()
    }
}

impl TraceNode {
    /// The minimal extract of this node, ignoring its children.
    pub open spec fn node_call(self) -> CallView {
        CallView {
            call_type: self.call_type@,
            selector: selector_of(self.input@),
            from: self.from@,
            to: self.to@,
        }
    }

    /// Pre-order linearization: a node's own call comes before its
    /// children's, and children keep their original order.
    pub open spec fn flatten_spec(self) -> Seq<CallView>
        decreases self,
    {
        seq![self.node_call()] + Self::flatten_forest(self.calls@)
    }

    pub open spec fn flatten_forest(nodes: Seq<TraceNode>) -> Seq<CallView>
        decreases nodes,
    {
        if nodes.len() == 0 {
            Seq::empty()
        } else {
            nodes[0].flatten_spec() + Self::flatten_forest(nodes.drop_first())
        }
    }

    /// Whether this tree holds a call whose receiver is `target`.
    pub open spec fn touches_spec(self, target: Seq<char>) -> bool
        decreases self,
    {
        self.to@ == target || exists|i: int|
            0 <= i < self.calls@.len() && (#[trigger] self.calls@[i]).touches_spec(target)
    }

    /// What flattening yields after the toplevel sentinel is put on this
    /// tree's root: the root's call under the sentinel kind, then its
    /// children's calls, pre-order.
    pub open spec fn toplevel_flatten(self) -> Seq<CallView> {
        seq![
            CallView {
                call_type: "toplevel"@,
                selector: selector_of(self.input@),
                from: self.from@,
                to: self.to@,
            },
        ] + Self::flatten_forest(self.calls@)
    }

    /// The same tree with the sentinel kind the pipeline puts on a root
    /// before flattening, so downstream filtering can tell the outermost
    /// call from nested ones.
    pub fn with_toplevel(self) -> (r: TraceNode)
        ensures
            r.call_type@ == "toplevel"@,
            r.input == self.input,
            r.from == self.from,
            r.to == self.to,
            r.calls == self.calls,
    {
        let label: &str = "toplevel";
        TraceNode {
            call_type: label.to_owned(),
            input: self.input,
            from: self.from,
            to: self.to,
            calls: self.calls,
        }
    }

    /// The minimal extract of this node alone.
    pub fn extract_call(&self) -> (r: FlatCall)
        ensures
            r@ == self.node_call(),
    {
        let selector: String = if self.input.unicode_len() >= 10 {
            self.input.as_str().substring_char(0, 10).to_owned()
        } else {
            String::new()
        };
        proof {
            assert(selector@ =~= selector_of(self.input@));
        }
        FlatCall {
            call_type: self.call_type.clone(),
            selector,
            from: self.from.clone(),
            to: self.to.clone(),
        }
    }

    /// Flatten this tree, pre-order. Deterministic: the result is pinned to
    /// `flatten_spec`, so flattening the same tree twice gives the same
    /// sequence.
    pub fn flatten(&self) -> (r: Vec<FlatCall>)
        ensures
            r@.map_values(|c: FlatCall| c@) == self.flatten_spec(),
    {
        let mut out: Vec<FlatCall> = Vec::new();
        proof {
            assert(out@.map_values(|c: FlatCall| c@) =~= Seq::<CallView>::empty());
        }
        self.flatten_into(&mut out);
        proof {
            assert(Seq::<CallView>::empty() + self.flatten_spec() =~= self.flatten_spec());
        }
        out
    }

    fn flatten_into(&self, out: &mut Vec<FlatCall>)
        ensures
            final(out)@.map_values(|c: FlatCall| c@) == old(out)@.map_values(|c: FlatCall| c@)
                + self.flatten_spec(),
        decreases *self,
    {
        let head = self.extract_call();
        out.push(head);
        proof {
            assert(out@.map_values(|c: FlatCall| c@) =~= old(out)@.map_values(|c: FlatCall| c@)
                + seq![self.node_call()]);
        }
        let ghost base = out@.map_values(|c: FlatCall| c@);
        let n = self.calls.len();
        let mut i: usize = 0;
        proof {
            assert(self.calls@.take(0) =~= Seq::<TraceNode>::empty());
        }
        while i < n
            invariant
                i <= n,
                n == self.calls.len(),
                out@.map_values(|c: FlatCall| c@) == base + Self::flatten_forest(
                    self.calls@.take(i as int),
                ),
            decreases n - i,
        {
            self.calls[i].flatten_into(out);
            proof {
                lemma_flatten_forest_concat(self.calls@.take(i as int), seq![self.calls@[i as int]]);
                assert(self.calls@.take(i as int) + seq![self.calls@[i as int]] =~= self.calls@.take(
                    i as int + 1,
                ));
                assert(Self::flatten_forest(seq![self.calls@[i as int]])
                    == self.calls@[i as int].flatten_spec() + Self::flatten_forest(
                    Seq::<TraceNode>::empty(),
                )) by {
                    assert(seq![self.calls@[i as int]].drop_first() =~= Seq::<TraceNode>::empty());
                }
            }
            i = i + 1;
        }
        proof {
            assert(self.calls@.take(n as int) =~= self.calls@);
            assert(base + Self::flatten_forest(self.calls@) =~= old(out)@.map_values(
                |c: FlatCall| c@,
            ) + self.flatten_spec());
        }
    }

    /// Whether this tree holds a call whose receiver is `target`.
    pub fn touches(&self, target: &str) -> (r: bool)
        ensures
            r == self.touches_spec(target@),
        decreases *self,
    {
        if crate::text::str_eq(self.to.as_str(), target) {
            return true;
        }
        let n = self.calls.len();
        let mut i: usize = 0;
        while i < n
            invariant
                i <= n,
                n == self.calls.len(),
                self.to@ != target@,
                forall|k: int| 0 <= k < i ==> !(#[trigger] self.calls@[k]).touches_spec(target@),
            decreases n - i,
        {
            if self.calls[i].touches(target) {
                return true;
            }
            i = i + 1;
        }
        false
    }
}

/// Flattening a forest splits over concatenation: the calls of `a + b` are
/// the calls of `a` followed by the calls of `b`.
pub proof fn lemma_flatten_forest_concat(a: Seq<TraceNode>, b: Seq<TraceNode>)
    ensures
        TraceNode::flatten_forest(a + b) == TraceNode::flatten_forest(a)
            + TraceNode::flatten_forest(b),
    decreases a.len(),
{
    if a.len() == 0 {
        assert(a + b =~= b);
        assert(TraceNode::flatten_forest(a) + TraceNode::flatten_forest(b)
            =~= TraceNode::flatten_forest(b));
    } else {
        assert((a + b).drop_first() =~= a.drop_first() + b);
        lemma_flatten_forest_concat(a.drop_first(), b);
        assert(TraceNode::flatten_forest(a + b) =~= TraceNode::flatten_forest(a)
            + TraceNode::flatten_forest(b));
    }
}

/// Law, pre-order: a flattened tree starts with the root's own call, and
/// everything after it is exactly the flattening of the root's children,
/// left to right — every node comes before all of its descendants.
pub proof fn lemma_flatten_preorder(n: TraceNode)
    ensures
        n.flatten_spec().len() >= 1,
        n.flatten_spec()[0] == n.node_call(),
        n.flatten_spec().drop_first() == TraceNode::flatten_forest(n.calls@),
{
    assert(n.flatten_spec().drop_first() =~= TraceNode::flatten_forest(n.calls@));
}

} // verus!
