//! The visual-scripting instruction tree: operations stored in an arena and
//! addressed by references, so that a front-end can assemble, inspect and
//! rewrite a script without owning its nodes.

use vstd::prelude::*;

verus! {

/// A newtype around a shared string used for identifier names.
#[derive(Debug, Eq, Hash)]
pub struct Identifier(String);

impl View for Identifier {
    type V = Seq<char>;

    closed spec fn view(&self) -> Seq<char> {
        self.0@
    }
}

impl Identifier {
    /// Wraps a name.
    pub fn new(name: String) -> (r: Identifier)
        ensures
            r@ == name@,
    {
        Identifier(name)
    }

    /// The name as text.
    pub fn as_str(&self) -> (r: &str)
        ensures
            r@ == self@,
    {
        self.0.as_str()
    }
}

impl Clone for Identifier {
    /// Clones the identifier, keeping its name.
    fn clone(&self) -> (r: Self)
        ensures
            r@ == self@,
    {
        Identifier(self.0.clone())
    }
}

impl PartialEq for Identifier {
    fn eq(&self, other: &Identifier) -> (r: bool) {
        self.0 == other.0
    }
}

impl vstd::std_specs::cmp::PartialEqSpecImpl for Identifier {
    open spec fn obeys_eq_spec() -> bool {
        true
    }

    open spec fn eq_spec(&self, other: &Identifier) -> bool {
        self@ == other@
    }
}

/// A reference to an operation: its index in the arena of the
/// [`ParametricPattern`] that created it.
#[derive(PartialEq, Eq, Structural, Clone, Copy, Hash, Debug)]
pub struct OperationRef(usize);

impl OperationRef {
    /// The arena index behind the reference.
    pub closed spec fn idx(self) -> int {
        self.0 as int
    }
}

/// An operation in the visual script.
#[derive(Debug)]
pub enum Operation {
    /// A variable definition.
    Define(Identifier, OperationRef),
    /// A literal value.
    Literal(u32),
    /// A variable reference.
    Variable(Identifier),
    /// A function call.
    Call(Identifier),
    /// A group of instructions run in order.
    Sequence(Vec<OperationRef>),
    /// A repetition: run the second operation the first's value many times.
    Repeat(OperationRef, OperationRef),
}

/// Every reference held by an operation points below `bound`: nodes only
/// ever refer to nodes created before them.
pub open spec fn op_wf(op: Operation, bound: int) -> bool {
    match op {
        Operation::Define(_, r) => r.idx() < bound,
        Operation::Literal(_) => true,
        Operation::Variable(_) => true,
        Operation::Call(_) => true,
        Operation::Sequence(v) => forall|i: int|
            0 <= i < v@.len() ==> (#[trigger] v@[i]).idx() < bound,
        Operation::Repeat(n, r) => n.idx() < bound && r.idx() < bound,
    }
}

/// The names of a list of identifiers, in order.
pub open spec fn names_of(s: Seq<Identifier>) -> Seq<Seq<char>> {
    Seq::new(s.len(), |i: int| s[i]@)
}

/// The names defined under the operation at `idx`, in pre-order: a
/// definition's own name comes before any name defined in its body.
/// Children at or above `idx` — which a well-formed arena never holds —
/// contribute nothing.
pub open spec fn defines_in(nodes: Seq<Operation>, idx: int) -> Seq<Seq<char>>
    decreases idx, 1int, 0int,
{
    if 0 <= idx < nodes.len() {
        match nodes[idx] {
            Operation::Define(name, r) => seq![name@] + if r.idx() < idx {
                defines_in(nodes, r.idx())
            } else {
                Seq::empty()
            },
            Operation::Literal(_) => Seq::empty(),
            Operation::Variable(_) => Seq::empty(),
            Operation::Call(_) => Seq::empty(),
            Operation::Sequence(v) => defines_in_prefix(nodes, v@, idx, v@.len() as int),
            Operation::Repeat(n, r) => (if n.idx() < idx {
                defines_in(nodes, n.idx())
            } else {
                Seq::empty()
            }) + (if r.idx() < idx {
                defines_in(nodes, r.idx())
            } else {
                Seq::empty()
            }),
        }
    } else {
        Seq::empty()
    }
}

/// The names defined under the first `k` children of a sequence group.
pub open spec fn defines_in_prefix(
    nodes: Seq<Operation>,
    refs: Seq<OperationRef>,
    bound: int,
    k: int,
) -> Seq<Seq<char>>
    decreases bound, 0int, k,
{
    if k <= 0 {
        Seq::empty()
    } else {
        defines_in_prefix(nodes, refs, bound, k - 1) + if refs[k - 1].idx() < bound {
            defines_in(nodes, refs[k - 1].idx())
        } else {
            Seq::empty()
        }
    }
}

/// The name list with every later repetition of a name removed: each name
/// keeps its first occurrence only.
pub open spec fn dedup_names(s: Seq<Seq<char>>) -> Seq<Seq<char>>
    decreases s.len(),
{
    if s.len() == 0 {
        Seq::empty()
    } else {
        let rest = dedup_names(s.drop_last());
        if rest.contains(s.last()) {
            rest
        } else {
            rest.push(s.last())
        }
    }
}

/// `k` is the position of the first occurrence of `t` in `s`.
pub open spec fn is_first_ref_index(s: Seq<OperationRef>, t: OperationRef, k: int) -> bool {
    &&& 0 <= k < s.len()
    &&& s[k] == t
    &&& forall|a: int| 0 <= a < k ==> s[a] != t
}

/// The position of the first occurrence of `t` in `s`.
pub open spec fn first_ref_index(s: Seq<OperationRef>, t: OperationRef) -> int {
    choose|k: int| is_first_ref_index(s, t, k)
}

/// The first occurrence of a reference is unique.
pub proof fn lemma_first_ref_index_unique(s: Seq<OperationRef>, t: OperationRef, i: int, j: int)
    requires
        is_first_ref_index(s, t, i),
        is_first_ref_index(s, t, j),
    ensures
        i == j,
{
    if i < j {
        assert(s[i] == t);
    } else if j < i {
        assert(s[j] == t);
    }
}

/// What [`ParametricPattern::remove_node`] does to one operation: a
/// sequence group loses its first occurrence of the target, anything else
/// stays as it was.
pub open spec fn removes_target(before: Operation, after: Operation, target: OperationRef) -> bool {
    match before {
        Operation::Sequence(v) => (after matches Operation::Sequence(v2) && v2@ == (
        if v@.contains(target) {
            v@.remove(first_ref_index(v@, target))
        } else {
            v@
        })),
        _ => after == before,
    }
}

/// A parametric script: an arena of operations and a chosen root.
pub struct ParametricPattern {
    root: Option<OperationRef>,
    nodes: Vec<Operation>,
}

impl ParametricPattern {
    /// The operations in creation order.
    pub closed spec fn spec_nodes(&self) -> Seq<Operation> {
        self.nodes@
    }

    /// The root operation, if one was chosen.
    pub closed spec fn spec_root(&self) -> Option<OperationRef> {
        self.root
    }

    /// References never point forward, and the root is valid.
    pub open spec fn wf(&self) -> bool {
        &&& forall|i: int| 0 <= i < self.spec_nodes().len() ==> op_wf(#[trigger] self.spec_nodes()[i], i)
        &&& (self.spec_root() matches Some(r) ==> r.idx() < self.spec_nodes().len())
    }

    /// Creates an empty script with no root.
    pub fn new() -> (r: ParametricPattern)
        ensures
            r.wf(),
            r.spec_nodes().len() == 0,
            r.spec_root() is None,
    {
        ParametricPattern { root: None, nodes: Vec::new() }
    }

    /// Chooses the root instruction of the script.
    pub fn build(&mut self, root: OperationRef)
        requires
            root.idx() < old(self).spec_nodes().len(),
        ensures
            final(self).spec_nodes() == old(self).spec_nodes(),
            final(self).spec_root() == Some(root),
            old(self).wf() ==> final(self).wf(),
    {
        self.root = Some(root);
    }

    /// The current root instruction of the script.
    pub fn root(&self) -> (r: Option<OperationRef>)
        ensures
            r == self.spec_root(),
    {
        self.root
    }

    /// A reference to an instruction, if the reference is one of this
    /// script's.
    pub fn get(&self, node: OperationRef) -> (r: Option<&Operation>)
        ensures
            node.idx() < self.spec_nodes().len() ==> (r matches Some(op) && op
                == &self.spec_nodes()[node.idx()]),
            node.idx() >= self.spec_nodes().len() ==> r is None,
    {
        if node.0 < self.nodes.len() {
            Some(&self.nodes[node.0])
        } else {
            None
        }
    }

    /// Adds a node to the arena.
    fn add_node(&mut self, operation: Operation) -> (r: OperationRef)
        requires
            op_wf(operation, old(self).spec_nodes().len() as int),
        ensures
            r.idx() == old(self).spec_nodes().len(),
            final(self).spec_nodes() == old(self).spec_nodes().push(operation),
            final(self).spec_root() == old(self).spec_root(),
            old(self).wf() ==> final(self).wf(),
    {
        let new_ref = OperationRef(self.nodes.len());
        self.nodes.push(operation);
        new_ref
    }

    /// Creates a variable definition.
    pub fn define(&mut self, name: Identifier, op: OperationRef) -> (r: OperationRef)
        requires
            op.idx() < old(self).spec_nodes().len(),
        ensures
            r.idx() == old(self).spec_nodes().len(),
            final(self).spec_nodes() == old(self).spec_nodes().push(Operation::Define(name, op)),
            final(self).spec_root() == old(self).spec_root(),
            old(self).wf() ==> final(self).wf(),
    {
        self.add_node(Operation::Define(name, op))
    }

    /// Creates a literal value.
    pub fn literal(&mut self, value: u32) -> (r: OperationRef)
        ensures
            r.idx() == old(self).spec_nodes().len(),
            final(self).spec_nodes() == old(self).spec_nodes().push(Operation::Literal(value)),
            final(self).spec_root() == old(self).spec_root(),
            old(self).wf() ==> final(self).wf(),
    {
        self.add_node(Operation::Literal(value))
    }

    /// Creates a variable reference.
    pub fn variable(&mut self, name: Identifier) -> (r: OperationRef)
        ensures
            r.idx() == old(self).spec_nodes().len(),
            final(self).spec_nodes() == old(self).spec_nodes().push(Operation::Variable(name)),
            final(self).spec_root() == old(self).spec_root(),
            old(self).wf() ==> final(self).wf(),
    {
        self.add_node(Operation::Variable(name))
    }

    /// Creates a function call.
    pub fn call(&mut self, name: Identifier) -> (r: OperationRef)
        ensures
            r.idx() == old(self).spec_nodes().len(),
            final(self).spec_nodes() == old(self).spec_nodes().push(Operation::Call(name)),
            final(self).spec_root() == old(self).spec_root(),
            old(self).wf() ==> final(self).wf(),
    {
        self.add_node(Operation::Call(name))
    }

    /// Creates a group of instructions run in order.
    pub fn sequence(&mut self, ops: Vec<OperationRef>) -> (r: OperationRef)
        requires
            forall|i: int|
                0 <= i < ops@.len() ==> (#[trigger] ops@[i]).idx() < old(
                    self,
                ).spec_nodes().len(),
        ensures
            r.idx() == old(self).spec_nodes().len(),
            final(self).spec_nodes() == old(self).spec_nodes().push(Operation::Sequence(ops)),
            final(self).spec_root() == old(self).spec_root(),
            old(self).wf() ==> final(self).wf(),
    {
        self.add_node(Operation::Sequence(ops))
    }

    /// Creates a repetition statement.
    pub fn repeat(&mut self, n: OperationRef, op: OperationRef) -> (r: OperationRef)
        requires
            n.idx() < old(self).spec_nodes().len(),
            op.idx() < old(self).spec_nodes().len(),
        ensures
            r.idx() == old(self).spec_nodes().len(),
            final(self).spec_nodes() == old(self).spec_nodes().push(Operation::Repeat(n, op)),
            final(self).spec_root() == old(self).spec_root(),
            old(self).wf() ==> final(self).wf(),
    {
        self.add_node(Operation::Repeat(n, op))
    }

    /// Removes every use of a reference from the sequence groups of the
    /// arena: each group loses its first occurrence of the reference.
    pub fn remove_node(&mut self, operation: OperationRef)
        ensures
            final(self).spec_root() == old(self).spec_root(),
            final(self).spec_nodes().len() == old(self).spec_nodes().len(),
            forall|i: int|
                0 <= i < old(self).spec_nodes().len() ==> removes_target(
                    old(self).spec_nodes()[i],
                    final(self).spec_nodes()[i],
                    operation,
                ),
            old(self).wf() ==> final(self).wf(),
    {
        let n = self.nodes.len();
        let mut i: usize = 0;
        while i < n
            invariant
                i <= n,
                n == self.spec_nodes().len(),
                self.spec_root() == old(self).spec_root(),
                forall|q: int|
                    0 <= q < i ==> removes_target(
                        old(self).spec_nodes()[q],
                        self.spec_nodes()[q],
                        operation,
                    ),
                forall|q: int|
                    i <= q < n ==> self.spec_nodes()[q] == old(self).spec_nodes()[q],
                old(self).wf() ==> self.wf(),
            decreases n - i,
        {
            let replacement: Option<Vec<OperationRef>> = match &self.nodes[i] {
                Operation::Sequence(v) => {
                    let mut k: usize = 0;
                    let mut found = false;
                    while k < v.len() && !found
                        invariant
                            k <= v@.len(),
                            !found ==> forall|a: int| 0 <= a < k ==> v@[a] != operation,
                            found ==> is_first_ref_index(v@, operation, k as int),
                        decreases v@.len() - k, (if found { 0int } else { 1int }),
                    {
                        if v[k] == operation {
                            found = true;
                        } else {
                            k = k + 1;
                        }
                    }
                    if found {
                        proof {
                            lemma_first_ref_index_unique(
                                v@,
                                operation,
                                k as int,
                                first_ref_index(v@, operation),
                            );
                        }
                        let mut kept: Vec<OperationRef> = Vec::new();
                        let mut q: usize = 0;
                        while q < v.len()
                            invariant
                                q <= v@.len(),
                                k < v@.len(),
                                kept@ == if q <= k {
                                    v@.take(q as int)
                                } else {
                                    v@.subrange(0, k as int) + v@.subrange(k as int + 1, q as int)
                                },
                            decreases v@.len() - q,
                        {
                            if q != k {
                                kept.push(v[q]);
                            }
                            proof {
                                if q < k {
                                    assert(kept@ =~= v@.take(q as int + 1));
                                } else if q == k {
                                    assert(kept@ =~= v@.subrange(0, k as int) + v@.subrange(
                                        k as int + 1,
                                        k as int + 1,
                                    ));
                                } else {
                                    assert(kept@ =~= v@.subrange(0, k as int) + v@.subrange(
                                        k as int + 1,
                                        q as int + 1,
                                    ));
                                }
                            }
                            q = q + 1;
                        }
                        proof {
                            assert(kept@ =~= v@.remove(k as int));
                        }
                        Some(kept)
                    } else {
                        proof {
                            assert(!v@.contains(operation)) by {
                                if v@.contains(operation) {
                                    let a = choose|a: int|
                                        0 <= a < v@.len() && v@[a] == operation;
                                }
                            }
                        }
                        None
                    }
                },
                _ => None,
            };
            if let Some(v2) = replacement {
                self.nodes[i] = Operation::Sequence(v2);
            }
            i = i + 1;
        }
    }

    /// Collects the names defined by the operation at `idx` and its
    /// children, in pre-order, after whatever the list already holds.
    fn collect_defines(&self, idx: usize, out: &mut Vec<Identifier>)
        requires
            self.wf(),
            idx < self.spec_nodes().len(),
        ensures
            names_of(final(out)@) == names_of(old(out)@) + defines_in(
                self.spec_nodes(),
                idx as int,
            ),
        decreases idx,
    {
        let ghost ns = self.spec_nodes();
        let op = &self.nodes[idx];
        match op {
            Operation::Define(name, r) => {
                proof {
                    assert(ns[idx as int] == Operation::Define(*name, *r));
                    assert(op_wf(ns[idx as int], idx as int));
                }
                out.push(name.clone());
                proof {
                    assert(names_of(out@) =~= names_of(old(out)@) + seq![name@]);
                }
                self.collect_defines(r.0, out);
                proof {
                    assert(names_of(out@) =~= names_of(old(out)@) + (seq![name@] + defines_in(
                        ns,
                        r.idx(),
                    )));
                }
            },
            Operation::Literal(_) => {
                proof {
                    assert(names_of(out@) =~= names_of(out@) + Seq::<Seq<char>>::empty());
                }
            },
            Operation::Variable(_) => {
                proof {
                    assert(names_of(out@) =~= names_of(out@) + Seq::<Seq<char>>::empty());
                }
            },
            Operation::Call(_) => {
                proof {
                    assert(names_of(out@) =~= names_of(out@) + Seq::<Seq<char>>::empty());
                }
            },
            Operation::Sequence(v) => {
                let mut i: usize = 0;
                while i < v.len()
                    invariant
                        i <= v@.len(),
                        self.wf(),
                        ns == self.spec_nodes(),
                        idx < ns.len(),
                        ns[idx as int] == Operation::Sequence(*v),
                        names_of(out@) == names_of(old(out)@) + defines_in_prefix(
                            ns,
                            v@,
                            idx as int,
                            i as int,
                        ),
                    decreases v@.len() - i,
                {
                    let child = v[i];
                    proof {
                        assert(op_wf(ns[idx as int], idx as int));
                        assert(match ns[idx as int] {
                            Operation::Sequence(refs) => refs@[i as int].idx() < idx,
                            _ => false,
                        });
                        assert(child.idx() < idx);
                    }
                    self.collect_defines(child.0, out);
                    proof {
                        assert(names_of(out@) =~= names_of(old(out)@) + (defines_in_prefix(
                            ns,
                            v@,
                            idx as int,
                            i as int,
                        ) + defines_in(ns, child.idx())));
                        assert(defines_in_prefix(ns, v@, idx as int, i as int + 1)
                            == defines_in_prefix(ns, v@, idx as int, i as int) + defines_in(
                            ns,
                            child.idx(),
                        ));
                    }
                    i = i + 1;
                }
                proof {
                    assert(defines_in(ns, idx as int) == defines_in_prefix(
                        ns,
                        v@,
                        idx as int,
                        v@.len() as int,
                    ));
                }
            },
            Operation::Repeat(n, r) => {
                proof {
                    assert(ns[idx as int] == Operation::Repeat(*n, *r));
                    assert(op_wf(ns[idx as int], idx as int));
                }
                self.collect_defines(n.0, out);
                self.collect_defines(r.0, out);
                proof {
                    assert(names_of(out@) =~= names_of(old(out)@) + (defines_in(ns, n.idx())
                        + defines_in(ns, r.idx())));
                }
            },
        }
    }

    /// Whether the list already holds an identifier with this name.
    fn contains_name(v: &Vec<Identifier>, x: &Identifier) -> (r: bool)
        ensures
            r == exists|i: int| 0 <= i < v@.len() && (#[trigger] v@[i])@ == x@,
    {
        let mut i: usize = 0;
        while i < v.len()
            invariant
                i <= v@.len(),
                forall|k: int| 0 <= k < i ==> (#[trigger] v@[k])@ != x@,
            decreases v@.len() - i,
        {
            if &v[i] == x {
                return true;
            }
            i = i + 1;
        }
        false
    }

    /// Lists the names defined under the root, in first-occurrence
    /// pre-order, each name exactly once.
    pub fn defined_identifiers(&self) -> (r: Vec<Identifier>)
        requires
            self.wf(),
            self.spec_root() is Some,
        ensures
            names_of(r@) == dedup_names(
                defines_in(self.spec_nodes(), self.spec_root()->Some_0.idx()),
            ),
    {
        let root = match self.root {
            Some(r) => r,
            None => {
                return Vec::new();
            },
        };
        let mut all: Vec<Identifier> = Vec::new();
        self.collect_defines(root.0, &mut all);
        let ghost target = defines_in(self.spec_nodes(), root.idx());
        proof {
            assert(names_of(all@) =~= target);
        }
        let mut unique: Vec<Identifier> = Vec::new();
        let mut i: usize = 0;
        while i < all.len()
            invariant
                i <= all@.len(),
                names_of(all@) == target,
                names_of(unique@) == dedup_names(target.take(i as int)),
            decreases all@.len() - i,
        {
            proof {
                assert(target.take(i as int + 1).drop_last() =~= target.take(i as int));
                assert(target.take(i as int + 1).last() == target[i as int]);
                assert(target[i as int] == all@[i as int]@);
            }
            if !Self::contains_name(&unique, &all[i]) {
                proof {
                    assert(!dedup_names(target.take(i as int)).contains(target[i as int])) by {
                        if dedup_names(target.take(i as int)).contains(target[i as int]) {
                            let q = choose|q: int|
                                0 <= q < dedup_names(target.take(i as int)).len()
                                    && dedup_names(target.take(i as int))[q] == target[i as int];
                            assert(names_of(unique@)[q] == unique@[q]@);
                        }
                    }
                }
                let x = all[i].clone();
                unique.push(x);
                proof {
                    assert(names_of(unique@) =~= dedup_names(target.take(i as int)).push(
                        target[i as int],
                    ));
                }
            } else {
                proof {
                    let q = choose|q: int| 0 <= q < unique@.len() && unique@[q]@ == all@[i as int]@;
                    assert(dedup_names(target.take(i as int)).contains(target[i as int])) by {
                        assert(names_of(unique@)[q] == target[i as int]);
                    }
                }
            }
            i = i + 1;
        }
        proof {
            assert(target.take(target.len() as int) =~= target);
        }
        unique
    }
}

/// An example parametric pattern describing a flat sheet of crochet. It
/// defines exactly the parameters `stitches`, `x` and `y`, in that order.
pub fn example_flat() -> (r: ParametricPattern)
    ensures
        r.wf(),
        r.spec_root() is Some,
        defines_in(r.spec_nodes(), r.spec_root()->Some_0.idx()) == seq!["stitches"@, "x"@, "y"@],
{
    let mut p = ParametricPattern::new();
    let stitches_value = p.literal(15);
    let stitches = p.define(Identifier::new(String::from_str("stitches")), stitches_value);
    let x_value = p.literal(5);
    let x = p.define(Identifier::new(String::from_str("x")), x_value);
    let y_value = p.literal(6);
    let y = p.define(Identifier::new(String::from_str("y")), y_value);

    let chain_call = p.call(Identifier::new(String::from_str("chain")));
    let mut chain_body: Vec<OperationRef> = Vec::new();
    chain_body.push(chain_call);
    let chain_seq = p.sequence(chain_body);
    let n1 = p.variable(Identifier::new(String::from_str("stitches")));
    let foundation = p.repeat(n1, chain_seq);

    let turn_call = p.call(Identifier::new(String::from_str("turn")));
    let dc_call = p.call(Identifier::new(String::from_str("dc")));
    let mut dc_body: Vec<OperationRef> = Vec::new();
    dc_body.push(dc_call);
    let dc_seq = p.sequence(dc_body);
    let n2 = p.variable(Identifier::new(String::from_str("stitches")));
    let dc_rep = p.repeat(n2, dc_seq);
    let mut row_body: Vec<OperationRef> = Vec::new();
    row_body.push(turn_call);
    row_body.push(dc_rep);
    let row_seq = p.sequence(row_body);
    let n3 = p.variable(Identifier::new(String::from_str("stitches")));
    let rows = p.repeat(n3, row_seq);

    let mut top: Vec<OperationRef> = Vec::new();
    top.push(stitches);
    top.push(x);
    top.push(y);
    top.push(foundation);
    top.push(rows);
    let root = p.sequence(top);
    p.build(root);
    proof {
        let ns = p.spec_nodes();
        // the leaves define nothing
        assert(defines_in(ns, stitches_value.idx()) =~= Seq::<Seq<char>>::empty());
        assert(defines_in(ns, x_value.idx()) =~= Seq::<Seq<char>>::empty());
        assert(defines_in(ns, y_value.idx()) =~= Seq::<Seq<char>>::empty());
        assert(defines_in(ns, chain_call.idx()) =~= Seq::<Seq<char>>::empty());
        assert(defines_in(ns, n1.idx()) =~= Seq::<Seq<char>>::empty());
        assert(defines_in(ns, turn_call.idx()) =~= Seq::<Seq<char>>::empty());
        assert(defines_in(ns, dc_call.idx()) =~= Seq::<Seq<char>>::empty());
        assert(defines_in(ns, n2.idx()) =~= Seq::<Seq<char>>::empty());
        assert(defines_in(ns, n3.idx()) =~= Seq::<Seq<char>>::empty());
        // the three definitions each contribute their name
        assert(defines_in(ns, stitches.idx()) =~= seq!["stitches"@]);
        assert(defines_in(ns, x.idx()) =~= seq!["x"@]);
        assert(defines_in(ns, y.idx()) =~= seq!["y"@]);
        // the repetition groups hold only calls and variables
        let cb = ns[chain_seq.idx()]->Sequence_0@;
        assert(cb =~= seq![chain_call]);
        assert(defines_in_prefix(ns, cb, chain_seq.idx(), 0) =~= Seq::<Seq<char>>::empty());
        assert(defines_in_prefix(ns, cb, chain_seq.idx(), 1) =~= Seq::<Seq<char>>::empty());
        assert(defines_in(ns, chain_seq.idx()) =~= Seq::<Seq<char>>::empty());
        assert(defines_in(ns, foundation.idx()) =~= Seq::<Seq<char>>::empty());
        let db = ns[dc_seq.idx()]->Sequence_0@;
        assert(db =~= seq![dc_call]);
        assert(defines_in_prefix(ns, db, dc_seq.idx(), 0) =~= Seq::<Seq<char>>::empty());
        assert(defines_in_prefix(ns, db, dc_seq.idx(), 1) =~= Seq::<Seq<char>>::empty());
        assert(defines_in(ns, dc_seq.idx()) =~= Seq::<Seq<char>>::empty());
        assert(defines_in(ns, dc_rep.idx()) =~= Seq::<Seq<char>>::empty());
        let rb = ns[row_seq.idx()]->Sequence_0@;
        assert(rb =~= seq![turn_call, dc_rep]);
        assert(defines_in_prefix(ns, rb, row_seq.idx(), 0) =~= Seq::<Seq<char>>::empty());
        assert(defines_in_prefix(ns, rb, row_seq.idx(), 1) =~= Seq::<Seq<char>>::empty());
        assert(defines_in_prefix(ns, rb, row_seq.idx(), 2) =~= Seq::<Seq<char>>::empty());
        assert(defines_in(ns, row_seq.idx()) =~= Seq::<Seq<char>>::empty());
        assert(defines_in(ns, rows.idx()) =~= Seq::<Seq<char>>::empty());
        // the root lists the definitions first, then the two repetitions
        let tb = ns[root.idx()]->Sequence_0@;
        assert(tb =~= seq![stitches, x, y, foundation, rows]);
        assert(defines_in_prefix(ns, tb, root.idx(), 0) =~= Seq::<Seq<char>>::empty());
        assert(defines_in_prefix(ns, tb, root.idx(), 1) =~= seq!["stitches"@]);
        assert(defines_in_prefix(ns, tb, root.idx(), 2) =~= seq!["stitches"@, "x"@]);
        assert(defines_in_prefix(ns, tb, root.idx(), 3) =~= seq!["stitches"@, "x"@, "y"@]);
        assert(defines_in_prefix(ns, tb, root.idx(), 4) =~= seq!["stitches"@, "x"@, "y"@]);
        assert(defines_in_prefix(ns, tb, root.idx(), 5) =~= seq!["stitches"@, "x"@, "y"@]);
        assert(defines_in(ns, root.idx()) =~= seq!["stitches"@, "x"@, "y"@]);
    }
    p
}

} // verus!
