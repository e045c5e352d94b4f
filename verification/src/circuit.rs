//! Circuits for simulation: every chip of a design as a node, with the
//! values of its signals, its parts as other nodes, the resolved wiring
//! between a node's signals and its parts' ports, and its assignments.
//! Values settle by sweeps over the parts; DFFs hold their state until the
//! clock ticks.
use crate::busmap::{BusMap, read_bits, write_bits};
use crate::chars::{to_uppercase, upper_text};
use crate::chip::{Chip, ChipModel, chip_outcome, nand_bit, one_bit, port_view};
use crate::elaborate::{elaboration, generics_bound, part_generics, text_error};
use crate::expr::{GenericWidth, Terminal, eval_expr_numeric, numeric_state, spec_eval_expr};
use crate::keys::key_eq;
use crate::strmap::StrMap;
use crate::parser::{ChipHDL, PortMappingHDL, chip_named, get_hdl, missing_chip};
use crate::error::{ErrorKind, N2VError};
use crate::parser::PortDirection;
use crate::simulator::{Bus, Port};
use vstd::prelude::*;

verus! {

/// What a node computes.
#[derive(Debug, Clone, Copy, PartialEq, Eq, Structural)]
pub enum Kind {
    /// The Nand gate: `out` is the Nand of `a` and `b`.
    Nand,
    /// The DFF: `out` holds its state until the clock ticks.
    Dff,
    /// A chip made of parts.
    Composite,
}

/// A resolved port mapping of a part: `count` bits of the part's port `port`
/// from bit `port_start` on, and as many bits of the node's signal `wire`
/// from bit `wire_start` on. An input link copies the signal bits into the
/// port; an output link copies the port bits into the signal.
#[derive(Debug)]
pub struct Link {
    pub input: bool,
    pub port: String,
    pub port_start: usize,
    pub wire: String,
    pub wire_start: usize,
    pub count: usize,
}

/// An assignment within a node: `left` takes the lowest `width` bits of `right`.
#[derive(Debug)]
pub struct Assign {
    pub left: String,
    pub right: String,
    pub width: usize,
}

/// A node of a circuit: what it computes, its assignments, the nodes of its
/// parts, and for each part the links between the node and that part.
#[derive(Debug)]
pub struct Node {
    pub kind: Kind,
    pub assignments: Vec<Assign>,
    pub parts: Vec<usize>,
    pub links: Vec<Vec<Link>>,
}

/// A circuit: its nodes (node 0 is the chip simulated) and the values of the
/// signals of each node.
pub struct Circuit {
    pub nodes: Vec<Node>,
    pub values: Vec<BusMap>,
    /// The ports of the chip simulated, in the order it declares them.
    pub ports: Vec<Port>,
}

/// The values of every node.
pub type Values = Seq<Map<Seq<char>, Seq<Option<bool>>>>;

/// Value maps as maps from signal names to bits.
pub open spec fn vals_of(v: Seq<BusMap>) -> Values {
    v.map_values(|b: BusMap| b.view())
}

impl Circuit {
    /// The values of every node, as maps from signal names to bits.
    pub open spec fn vals(&self) -> Values {
        vals_of(self.values@)
    }
}

/// The map `dst` with `count` bits of its bus `dname` from bit `ds` on set to
/// the bits of the bus `sname` of `src` from bit `ss` on.
pub open spec fn copy_bits(
    dst: Map<Seq<char>, Seq<Option<bool>>>,
    dname: Seq<char>,
    ds: int,
    src: Map<Seq<char>, Seq<Option<bool>>>,
    sname: Seq<char>,
    ss: int,
    count: int,
) -> Map<Seq<char>, Seq<Option<bool>>> {
    dst.insert(dname, write_bits(dst[dname], ds, ds + count, read_bits(src[sname], ss, ss + count)))
}

/// The first `k` links between node `i` and its part `j` applied in order,
/// the input links only (`input`) or the output links only.
pub open spec fn apply_links(vs: Values, ls: Seq<Link>, i: int, j: int, input: bool, k: int) -> Values
    decreases k,
{
    if k <= 0 || k > ls.len() {
        vs
    } else {
        let v = apply_links(vs, ls, i, j, input, k - 1);
        let l = ls[k - 1];
        if l.input != input {
            v
        } else if input {
            v.update(j, copy_bits(v[j], l.port@, l.port_start as int, v[i], l.wire@, l.wire_start as int, l.count as int))
        } else {
            v.update(i, copy_bits(v[i], l.wire@, l.wire_start as int, v[j], l.port@, l.port_start as int, l.count as int))
        }
    }
}

/// The first `k` assignments of node `i` applied in order.
pub open spec fn apply_assigns(vs: Values, asgs: Seq<Assign>, i: int, k: int) -> Values
    decreases k,
{
    if k <= 0 || k > asgs.len() {
        vs
    } else {
        let v = apply_assigns(vs, asgs, i, k - 1);
        let a = asgs[k - 1];
        v.update(i, copy_bits(v[i], a.left@, 0, v[i], a.right@, 0, a.width as int))
    }
}

/// The number of sweeps over a node's parts: one more than its parts and
/// assignments together, enough for values to pass along any path of them.
pub open spec fn sweep_count(n: Node) -> nat {
    (n.parts.len() + n.assignments.len() + 1) as nat
}

/// The values after node `i` computes: the Nand sets `out`, the DFF keeps
/// its state, and a chip sweeps its parts `sweep_count` times.
pub open spec fn eval_node(ns: Seq<Node>, vs: Values, i: int) -> Values
    decreases ns.len() - i, 2int, 0int,
{
    if i < 0 || i >= ns.len() {
        vs
    } else {
        match ns[i].kind {
            Kind::Nand => vs.update(i, vs[i].insert("out"@, seq![nand_bit(vs[i]["a"@][0], vs[i]["b"@][0])])),
            Kind::Dff => vs,
            Kind::Composite => sweeps(ns, vs, i, sweep_count(ns[i])),
        }
    }
}

/// `n` sweeps of node `i`: each computes the parts in order, copying their
/// inputs in before and their outputs out after, then applies the
/// assignments.
pub open spec fn sweeps(ns: Seq<Node>, vs: Values, i: int, n: nat) -> Values
    decreases ns.len() - i, 1int, n,
{
    if n == 0 || i < 0 || i >= ns.len() {
        vs
    } else {
        let v = sweeps(ns, vs, i, (n - 1) as nat);
        let v2 = parts_fold(ns, v, i, ns[i].parts.len() as int);
        apply_assigns(v2, ns[i].assignments@, i, ns[i].assignments.len() as int)
    }
}

/// The first `k` parts of node `i` computed in order.
pub open spec fn parts_fold(ns: Seq<Node>, vs: Values, i: int, k: int) -> Values
    decreases ns.len() - i, 0int, k,
{
    if k <= 0 || i < 0 || i >= ns.len() || k > ns[i].parts.len() {
        vs
    } else {
        let v = parts_fold(ns, vs, i, k - 1);
        let j = ns[i].parts@[k - 1] as int;
        if j <= i || j >= ns.len() {
            v
        } else {
            let ls = ns[i].links@[k - 1]@;
            let v1 = apply_links(v, ls, i, j, true, ls.len() as int);
            let v2 = eval_node(ns, v1, j);
            apply_links(v2, ls, i, j, false, ls.len() as int)
        }
    }
}

/// One sweep of node `i`: its parts computed in order, then its
/// assignments applied.
pub open spec fn sweep_once(ns: Seq<Node>, v: Values, i: int) -> Values {
    apply_assigns(parts_fold(ns, v, i, ns[i].parts.len() as int), ns[i].assignments@, i, ns[i].assignments.len() as int)
}

/// Values that one more sweep leaves as they are stay so for any number of
/// further sweeps.
proof fn lemma_settled_stays(ns: Seq<Node>, vs: Values, i: int, k: nat, t: nat)
    requires
        0 <= i < ns.len(),
        sweep_once(ns, sweeps(ns, vs, i, k), i) == sweeps(ns, vs, i, k),
    ensures
        sweeps(ns, vs, i, k + t) == sweeps(ns, vs, i, k),
    decreases t,
{
    if t > 0 {
        lemma_settled_stays(ns, vs, i, k, (t - 1) as nat);
        assert(sweeps(ns, vs, i, k + t) == sweep_once(ns, sweeps(ns, vs, i, (k + t - 1) as nat), i));
    }
}

/// A chip computes until its values settle, whatever the order of its parts:
/// where `k` sweeps, no more than the chip's parts and assignments together
/// (the longest path a value can take through them), reach values that one
/// more sweep leaves as they are, those are the values the chip computes to.
pub proof fn lemma_settled_values_computed(ns: Seq<Node>, vs: Values, i: int, k: nat)
    requires
        0 <= i < ns.len(),
        ns[i].kind == Kind::Composite,
        k <= ns[i].parts.len() + ns[i].assignments.len(),
        sweep_once(ns, sweeps(ns, vs, i, k), i) == sweeps(ns, vs, i, k),
    ensures
        eval_node(ns, vs, i) == sweeps(ns, vs, i, k),
        sweep_once(ns, eval_node(ns, vs, i), i) == eval_node(ns, vs, i),
{
    let t = (ns[i].parts.len() + ns[i].assignments.len() + 1 - k) as nat;
    lemma_settled_stays(ns, vs, i, k, t);
    assert(k + t == ns[i].parts.len() + ns[i].assignments.len() + 1);
}

/// A clock tick of the first `k` nodes: each DFF's `out` takes its `in`.
pub open spec fn tick_vals(ns: Seq<Node>, vs: Values, k: int) -> Values
    decreases k,
{
    if k <= 0 || k > ns.len() {
        vs
    } else {
        let v = tick_vals(ns, vs, k - 1);
        if ns[k - 1].kind == Kind::Dff {
            v.update(k - 1, v[k - 1].insert("out"@, seq![v[k - 1]["in"@][0]]))
        } else {
            v
        }
    }
}

/// Whether two value sets have the same nodes, buses and widths.
pub open spec fn same_shape(a: Values, b: Values) -> bool {
    &&& a.len() == b.len()
    &&& forall|i: int| 0 <= i < a.len() ==> (#[trigger] a[i]).dom() == b[i].dom()
    &&& forall|i: int, n: Seq<char>| 0 <= i < a.len() && #[trigger] a[i].contains_key(n) ==> a[i][n].len() == #[trigger] b[i][n].len()
}

/// Whether `count` bits from `start` fit in bus `name` of `m`.
pub open spec fn fits(m: Map<Seq<char>, Seq<Option<bool>>>, name: Seq<char>, start: int, count: int) -> bool {
    m.contains_key(name) && start + count <= m[name].len() && start + count <= usize::MAX
}

/// Whether a link between node `i` and part `j` fits both buses.
pub open spec fn link_fits(vs: Values, i: int, j: int, l: Link) -> bool {
    fits(vs[i], l.wire@, l.wire_start as int, l.count as int) && fits(vs[j], l.port@, l.port_start as int, l.count as int)
}

/// Whether node `i` is well formed against the values `vs`: gates have
/// their one-bit buses, parts stand after the node, and every link and
/// assignment fits its buses.
pub open spec fn node_wf(ns: Seq<Node>, vs: Values, i: int) -> bool {
    let n = ns[i];
    match n.kind {
        Kind::Nand => one_bit(vs[i], "a"@) && one_bit(vs[i], "b"@) && one_bit(vs[i], "out"@),
        Kind::Dff => one_bit(vs[i], "in"@) && one_bit(vs[i], "out"@),
        Kind::Composite => {
            &&& n.parts.len() == n.links.len()
            &&& n.parts.len() + n.assignments.len() < usize::MAX
            &&& forall|k: int| 0 <= k < n.parts.len() ==> i < #[trigger] n.parts@[k] < ns.len()
            &&& forall|k: int, q: int|
                0 <= k < n.parts.len() && 0 <= q < n.links@[k].len() ==> link_fits(vs, i, n.parts@[k] as int, #[trigger] n.links@[k]@[q])
            &&& forall|q: int|
                0 <= q < n.assignments.len() ==> fits(vs[i], (#[trigger] n.assignments@[q]).left@, 0, n.assignments@[q].width as int)
                    && fits(vs[i], n.assignments@[q].right@, 0, n.assignments@[q].width as int)
        },
    }
}

/// Whether a circuit is well formed: one value map per node, every node well
/// formed.
pub open spec fn circuit_wf(ns: Seq<Node>, vs: Values) -> bool {
    &&& ns.len() == vs.len()
    &&& forall|i: int| 0 <= i < ns.len() ==> node_wf(ns, vs, i)
}

/// Well-formedness depends on the shape of the values only.
pub(crate) proof fn lemma_wf_shape(ns: Seq<Node>, a: Values, b: Values)
    requires
        circuit_wf(ns, a),
        same_shape(a, b),
    ensures
        circuit_wf(ns, b),
{
    assert forall|i: int| 0 <= i < ns.len() implies node_wf(ns, b, i) by {
        assert(node_wf(ns, a, i));
        let n = ns[i];
        match n.kind {
            Kind::Nand => {
                assert(a[i].contains_key("a"@) && a[i].contains_key("b"@) && a[i].contains_key("out"@));
                assert(a[i]["a"@].len() == b[i]["a"@].len());
                assert(a[i]["b"@].len() == b[i]["b"@].len());
                assert(a[i]["out"@].len() == b[i]["out"@].len());
            },
            Kind::Dff => {
                assert(a[i]["in"@].len() == b[i]["in"@].len());
                assert(a[i]["out"@].len() == b[i]["out"@].len());
            },
            Kind::Composite => {
                assert forall|k: int, q: int|
                    0 <= k < n.parts.len() && 0 <= q < n.links@[k].len() implies link_fits(b, i, n.parts@[k] as int, #[trigger] n.links@[k]@[q]) by {
                    let l = n.links@[k]@[q];
                    let j = n.parts@[k] as int;
                    assert(link_fits(a, i, j, l));
                    assert(a[i][l.wire@].len() == b[i][l.wire@].len());
                    assert(a[j][l.port@].len() == b[j][l.port@].len());
                }
                assert forall|q: int| 0 <= q < n.assignments.len() implies fits(b[i], (#[trigger] n.assignments@[q]).left@, 0, n.assignments@[q].width as int)
                    && fits(b[i], n.assignments@[q].right@, 0, n.assignments@[q].width as int) by {
                    let x = n.assignments@[q];
                    assert(a[i][x.left@].len() == b[i][x.left@].len());
                    assert(a[i][x.right@].len() == b[i][x.right@].len());
                }
            },
        }
    }
}

/// Copies `count` bits of bus `sname` of node `src` from bit `ss` on into
/// bus `dname` of node `dst` from bit `ds` on.
fn copy_between(values: &mut Vec<BusMap>, dst: usize, dname: &str, ds: usize, src: usize, sname: &str, ss: usize, count: usize)
    requires
        dst < old(values).len(),
        src < old(values).len(),
        fits(vals_of(old(values)@)[dst as int], dname@, ds as int, count as int),
        fits(vals_of(old(values)@)[src as int], sname@, ss as int, count as int),
    ensures
        vals_of(final(values)@) == vals_of(old(values)@).update(
            dst as int,
            copy_bits(vals_of(old(values)@)[dst as int], dname@, ds as int, vals_of(old(values)@)[src as int], sname@, ss as int, count as int),
        ),
        same_shape(vals_of(old(values)@), vals_of(final(values)@)),
{
    let ghost v0 = vals_of(values@);
    let bits = values[src].get_bus(&Bus { name: String::from_str(sname), range: Some(ss..ss + count) });
    let mut m = values.remove(dst);
    m.insert_option(&Bus { name: String::from_str(dname), range: Some(ds..ds + count) }, bits);
    values.insert(dst, m);
    proof {
        let nv = copy_bits(v0[dst as int], dname@, ds as int, v0[src as int], sname@, ss as int, count as int);
        assert(vals_of(values@) =~= v0.update(dst as int, nv));
        let cur = v0[dst as int][dname@];
        assert(write_bits(cur, ds as int, ds + count, read_bits(v0[src as int][sname@], ss as int, ss + count)).len() == cur.len());
        assert(nv.dom() =~= v0[dst as int].dom());
    }
}

impl Circuit {
    /// Applies the input links (`input`) or the output links between node `i`
    /// and its `k`-th part.
    fn run_links(&mut self, i: usize, k: usize, input: bool)
        requires
            circuit_wf(old(self).nodes@, old(self).vals()),
            i < old(self).nodes.len(),
            old(self).nodes@[i as int].kind == Kind::Composite,
            k < old(self).nodes@[i as int].parts.len(),
        ensures
            final(self).nodes@ == old(self).nodes@,
            final(self).ports@ == old(self).ports@,
            final(self).vals() == apply_links(
                old(self).vals(),
                old(self).nodes@[i as int].links@[k as int]@,
                i as int,
                old(self).nodes@[i as int].parts@[k as int] as int,
                input,
                old(self).nodes@[i as int].links@[k as int].len() as int,
            ),
            same_shape(old(self).vals(), final(self).vals()),
    {
        let ghost ns = self.nodes@;
        let ghost v0 = self.vals();
        let j = self.nodes[i].parts[k];
        let ghost ls = ns[i as int].links@[k as int]@;
        assert(node_wf(ns, v0, i as int));
        let nl = self.nodes[i].links[k].len();
        let mut q: usize = 0;
        while q < nl
            invariant
                q <= nl,
                nl == ls.len(),
                self.nodes@ == ns,
                self.ports@ == old(self).ports@,
                ns[i as int].kind == Kind::Composite,
                i < ns.len(),
                k < ns[i as int].parts.len(),
                j == ns[i as int].parts@[k as int],
                ls == ns[i as int].links@[k as int]@,
                circuit_wf(ns, v0),
                same_shape(v0, self.vals()),
                self.vals() == apply_links(v0, ls, i as int, j as int, input, q as int),
            decreases nl - q,
        {
            proof {
                lemma_wf_shape(ns, v0, self.vals());
                assert(node_wf(ns, self.vals(), i as int));
                assert(link_fits(self.vals(), i as int, j as int, ls[q as int]));
            }
            let l = &self.nodes[i].links[k][q];
            if l.input == input {
                if input {
                    copy_between(&mut self.values, j, l.port.as_str(), l.port_start, i, l.wire.as_str(), l.wire_start, l.count);
                } else {
                    copy_between(&mut self.values, i, l.wire.as_str(), l.wire_start, j, l.port.as_str(), l.port_start, l.count);
                }
            }
            q = q + 1;
        }
    }

    /// Applies the assignments of node `i` in order.
    fn run_assigns(&mut self, i: usize)
        requires
            circuit_wf(old(self).nodes@, old(self).vals()),
            i < old(self).nodes.len(),
            old(self).nodes@[i as int].kind == Kind::Composite,
        ensures
            final(self).nodes@ == old(self).nodes@,
            final(self).ports@ == old(self).ports@,
            final(self).vals() == apply_assigns(
                old(self).vals(),
                old(self).nodes@[i as int].assignments@,
                i as int,
                old(self).nodes@[i as int].assignments.len() as int,
            ),
            same_shape(old(self).vals(), final(self).vals()),
    {
        let ghost ns = self.nodes@;
        let ghost v0 = self.vals();
        let ghost asgs = ns[i as int].assignments@;
        let na = self.nodes[i].assignments.len();
        let mut q: usize = 0;
        while q < na
            invariant
                q <= na,
                na == asgs.len(),
                self.nodes@ == ns,
                self.ports@ == old(self).ports@,
                ns[i as int].kind == Kind::Composite,
                i < ns.len(),
                asgs == ns[i as int].assignments@,
                circuit_wf(ns, v0),
                same_shape(v0, self.vals()),
                self.vals() == apply_assigns(v0, asgs, i as int, q as int),
            decreases na - q,
        {
            proof {
                lemma_wf_shape(ns, v0, self.vals());
                assert(node_wf(ns, self.vals(), i as int));
                assert(fits(self.vals()[i as int], asgs[q as int].left@, 0, asgs[q as int].width as int));
            }
            let a = &self.nodes[i].assignments[q];
            copy_between(&mut self.values, i, a.left.as_str(), 0, i, a.right.as_str(), 0, a.width);
            q = q + 1;
        }
    }

    /// Computes node `i`; see `eval_node`.
    fn compute_node(&mut self, i: usize)
        requires
            circuit_wf(old(self).nodes@, old(self).vals()),
            i < old(self).nodes.len(),
        ensures
            final(self).nodes@ == old(self).nodes@,
            final(self).ports@ == old(self).ports@,
            final(self).vals() == eval_node(old(self).nodes@, old(self).vals(), i as int),
            same_shape(old(self).vals(), final(self).vals()),
        decreases old(self).nodes.len() - i,
    {
        let ghost ns = self.nodes@;
        let ghost v0 = self.vals();
        proof {
            assert(node_wf(ns, v0, i as int));
        }
        match self.nodes[i].kind {
            Kind::Nand => {
                let a = self.values[i].get_name("a");
                let b = self.values[i].get_name("b");
                let v = crate::simulator::nand(a[0], b[0]);
                let mut m = self.values.remove(i);
                crate::chip::set_bit(&mut m, "out", v);
                self.values.insert(i, m);
                proof {
                    reveal_strlit("a");
                    reveal_strlit("b");
                    reveal_strlit("out");
                    assert(self.vals() =~= v0.update(i as int, v0[i as int].insert("out"@, seq![nand_bit(v0[i as int]["a"@][0], v0[i as int]["b"@][0])])));
                    assert(v0[i as int].insert("out"@, seq![nand_bit(v0[i as int]["a"@][0], v0[i as int]["b"@][0])]).dom() =~= v0[i as int].dom());
                }
            },
            Kind::Dff => {},
            Kind::Composite => {
                let np = self.nodes[i].parts.len();
                let nsw = np + self.nodes[i].assignments.len() + 1;
                let mut s: usize = 0;
                while s < nsw
                    invariant
                        s <= nsw,
                        nsw == sweep_count(ns[i as int]),
                        np == ns[i as int].parts.len(),
                        self.nodes@ == ns,
                        self.ports@ == old(self).ports@,
                        ns == old(self).nodes@,
                        v0 == old(self).vals(),
                        i < ns.len(),
                        ns[i as int].kind == Kind::Composite,
                        circuit_wf(ns, v0),
                        same_shape(v0, self.vals()),
                        self.vals() == sweeps(ns, v0, i as int, s as nat),
                    decreases nsw - s,
                {
                    let ghost vs = self.vals();
                    let mut k: usize = 0;
                    while k < np
                        invariant
                            k <= np,
                            np == ns[i as int].parts.len(),
                            self.nodes@ == ns,
                            self.ports@ == old(self).ports@,
                            ns == old(self).nodes@,
                            i < ns.len(),
                            ns[i as int].kind == Kind::Composite,
                            circuit_wf(ns, v0),
                            same_shape(v0, vs),
                            same_shape(v0, self.vals()),
                            self.vals() == parts_fold(ns, vs, i as int, k as int),
                        decreases np - k,
                    {
                        proof {
                            lemma_wf_shape(ns, v0, self.vals());
                            assert(node_wf(ns, self.vals(), i as int));
                        }
                        let j = self.nodes[i].parts[k];
                        assert(i < j < ns.len());
                        self.run_links(i, k, true);
                        proof {
                            lemma_wf_shape(ns, v0, self.vals());
                        }
                        assert(self.nodes@.len() == ns.len());
                        assert(self.nodes.len() - j < ns.len() - i);
                        self.compute_node(j);
                        proof {
                            lemma_wf_shape(ns, v0, self.vals());
                        }
                        self.run_links(i, k, false);
                        k = k + 1;
                    }
                    proof {
                        lemma_wf_shape(ns, v0, self.vals());
                    }
                    self.run_assigns(i);
                    s = s + 1;
                }
            },
        }
    }
}

/// Whether the ports of the chip simulated have their buses, of their
/// widths, among the values of node 0.
pub open spec fn ports_wf(ports: Seq<Port>, vs: Values) -> bool {
    &&& vs.len() > 0
    &&& forall|k: int| 0 <= k < ports.len() ==> #[trigger] vs[0].contains_key(ports[k].name.value@) && vs[0][ports[k].name.value@].len()
        == ports[k].width
}

/// Whether `inputs` holds, for every input port, a bus at least as wide.
pub open spec fn inputs_given(ports: Seq<Port>, inputs: Map<Seq<char>, Seq<Option<bool>>>) -> bool {
    forall|k: int| 0 <= k < ports.len() && (#[trigger] ports[k]).direction == PortDirection::In ==> fits(inputs, ports[k].name.value@, 0, ports[k].width as int)
}

/// The values of node 0 with the first `k` input ports set from `inputs`.
pub open spec fn set_inputs(m: Map<Seq<char>, Seq<Option<bool>>>, ports: Seq<Port>, inputs: Map<Seq<char>, Seq<Option<bool>>>, k: int) -> Map<Seq<char>, Seq<Option<bool>>>
    decreases k,
{
    if k <= 0 || k > ports.len() {
        m
    } else {
        let m1 = set_inputs(m, ports, inputs, k - 1);
        let p = ports[k - 1];
        if p.direction == PortDirection::In {
            copy_bits(m1, p.name.value@, 0, inputs, p.name.value@, 0, p.width as int)
        } else {
            m1
        }
    }
}

/// The values of the first `k` ports in `m`, by name.
pub open spec fn port_values(ports: Seq<Port>, m: Map<Seq<char>, Seq<Option<bool>>>, k: int) -> Map<Seq<char>, Seq<Option<bool>>>
    decreases k,
{
    if k <= 0 || k > ports.len() {
        Map::empty()
    } else {
        let p = ports[k - 1];
        port_values(ports, m, k - 1).insert(p.name.value@, m[p.name.value@])
    }
}

/// The message where the inputs leave an input port without its bits.
pub open spec fn missing_inputs_msg() -> Seq<char> {
    "The inputs do not give every bit of every input port"@
}

/// A tick changes only the `out` bus of DFF nodes, and sets it to the
/// node's `in`.
proof fn lemma_tick_vals_at(ns: Seq<Node>, vs: Values, k: int, x: int)
    requires
        0 <= k <= ns.len(),
        ns.len() == vs.len(),
    ensures
        tick_vals(ns, vs, k).len() == vs.len(),
        0 <= x < vs.len() ==> tick_vals(ns, vs, k)[x] == (if x < k && ns[x].kind == Kind::Dff {
            vs[x].insert("out"@, seq![vs[x]["in"@][0]])
        } else {
            vs[x]
        }),
    decreases k,
{
    if k > 0 {
        lemma_tick_vals_at(ns, vs, k - 1, x);
        lemma_tick_vals_at(ns, vs, k - 1, k - 1);
    }
}

/// A second clock tick, with no evaluation between, changes nothing: each
/// DFF's output already holds its input.
pub proof fn lemma_tick_twice(ns: Seq<Node>, vs: Values)
    requires
        ns.len() == vs.len(),
    ensures
        tick_vals(ns, tick_vals(ns, vs, ns.len() as int), ns.len() as int) == tick_vals(ns, vs, ns.len() as int),
{
    let n = ns.len() as int;
    let once = tick_vals(ns, vs, n);
    lemma_tick_vals_at(ns, vs, n, -1);
    let twice = tick_vals(ns, once, n);
    lemma_tick_vals_at(ns, once, n, -1);
    assert forall|x: int| 0 <= x < vs.len() implies twice[x] == once[x] by {
        lemma_tick_vals_at(ns, vs, n, x);
        lemma_tick_vals_at(ns, once, n, x);
        if ns[x].kind == Kind::Dff {
            let m = vs[x].insert("out"@, seq![vs[x]["in"@][0]]);
            assert("in"@ != "out"@) by {
                reveal_strlit("in");
                reveal_strlit("out");
                assert("in"@.len() != "out"@.len());
            }
            assert(m["in"@] == vs[x]["in"@]);
            assert(m.insert("out"@, seq![m["in"@][0]]) =~= m);
        }
    }
    assert(twice =~= once);
}

/// Having the same shape is transitive.
proof fn lemma_shape_trans(a: Values, b: Values, c: Values)
    requires
        same_shape(a, b),
        same_shape(b, c),
    ensures
        same_shape(a, c),
{
    assert forall|i: int, n: Seq<char>| 0 <= i < a.len() && #[trigger] a[i].contains_key(n) implies a[i][n].len() == #[trigger] c[i][n].len() by {
        assert(a[i].dom() == b[i].dom());
        assert(b[i].contains_key(n));
        assert(a[i][n].len() == b[i][n].len());
        assert(b[i][n].len() == c[i][n].len());
    }
}

/// The ports keep their buses where the shape is kept.
pub(crate) proof fn lemma_ports_shape(ps: Seq<Port>, a: Values, b: Values)
    requires
        ports_wf(ps, a),
        same_shape(a, b),
    ensures
        ports_wf(ps, b),
{
    assert forall|k: int| 0 <= k < ps.len() implies #[trigger] b[0].contains_key(ps[k].name.value@) && b[0][ps[k].name.value@].len() == ps[k].width by {
        assert(a[0].contains_key(ps[k].name.value@));
        assert(a[0][ps[k].name.value@].len() == b[0][ps[k].name.value@].len());
    }
}

/// The port values hold the bus of each port named so far.
proof fn lemma_port_values(ps: Seq<Port>, m: Map<Seq<char>, Seq<Option<bool>>>, k: int)
    requires
        0 <= k <= ps.len(),
    ensures
        forall|n: Seq<char>| #[trigger] port_values(ps, m, k).contains_key(n) ==> port_values(ps, m, k)[n] == m[n],
    decreases k,
{
    if k > 0 {
        lemma_port_values(ps, m, k - 1);
        let p = ps[k - 1];
        assert forall|n: Seq<char>| #[trigger] port_values(ps, m, k).contains_key(n) implies port_values(ps, m, k)[n] == m[n] by {
            if n != p.name.value@ {
                assert(port_values(ps, m, k - 1).contains_key(n));
            }
        }
    }
}

impl Circuit {
    /// A clock tick: the output of every DFF takes the value of its input.
    pub fn tick(&mut self)
        requires
            circuit_wf(old(self).nodes@, old(self).vals()),
        ensures
            final(self).nodes@ == old(self).nodes@,
            final(self).ports@ == old(self).ports@,
            final(self).vals() == tick_vals(old(self).nodes@, old(self).vals(), old(self).nodes.len() as int),
            same_shape(old(self).vals(), final(self).vals()),
    {
        let ghost ns = self.nodes@;
        let ghost v0 = self.vals();
        let mut k: usize = 0;
        while k < self.nodes.len()
            invariant
                k <= ns.len(),
                self.nodes@ == ns,
                self.ports@ == old(self).ports@,
                circuit_wf(ns, v0),
                same_shape(v0, self.vals()),
                self.vals() == tick_vals(ns, v0, k as int),
            decreases ns.len() - k,
        {
            proof {
                lemma_wf_shape(ns, v0, self.vals());
                assert(node_wf(ns, self.vals(), k as int));
            }
            if self.nodes[k].kind == Kind::Dff {
                let x = self.values[k].get_name("in");
                let ghost vk = self.vals();
                let mut m = self.values.remove(k);
                crate::chip::set_bit(&mut m, "out", x[0]);
                self.values.insert(k, m);
                proof {
                    reveal_strlit("in");
                    reveal_strlit("out");
                    let nm = vk[k as int].insert("out"@, seq![vk[k as int]["in"@][0]]);
                    assert(self.vals() =~= vk.update(k as int, nm));
                    assert(nm.dom() =~= vk[k as int].dom());
                }
            }
            k = k + 1;
        }
    }

    /// Simulates the chip with `inputs`: every input port takes its bits from
    /// the bus of its name in `inputs`, the chip computes (see `eval_node`),
    /// and the values of all its ports come back. `Err`, with nothing
    /// changed, where `inputs` lacks bits of an input port.
    pub fn compute(&mut self, inputs: &BusMap) -> (r: Result<BusMap, N2VError>)
        requires
            circuit_wf(old(self).nodes@, old(self).vals()),
            ports_wf(old(self).ports@, old(self).vals()),
        ensures
            final(self).nodes@ == old(self).nodes@,
            final(self).ports@ == old(self).ports@,
            circuit_wf(final(self).nodes@, final(self).vals()),
            ports_wf(final(self).ports@, final(self).vals()),
            !inputs_given(old(self).ports@, inputs.view()) ==> (r matches Err(e) && e.msg@ == missing_inputs_msg() && e.kind
                == ErrorKind::Other && final(self).vals() == old(self).vals()),
            inputs_given(old(self).ports@, inputs.view()) ==> {
                let v = eval_node(
                    old(self).nodes@,
                    old(self).vals().update(0, set_inputs(old(self).vals()[0], old(self).ports@, inputs.view(), old(self).ports.len() as int)),
                    0,
                );
                &&& final(self).vals() == v
                &&& r matches Ok(out) && out.view() == port_values(old(self).ports@, v[0], old(self).ports.len() as int)
            },
    {
        let ghost ns = self.nodes@;
        let ghost ps = self.ports@;
        let ghost v0 = self.vals();
        let ghost inv = inputs.view();
        let mut k: usize = 0;
        while k < self.ports.len()
            invariant
                k <= ps.len(),
                self.ports@ == ps,
                self.nodes@ == ns,
                self.vals() == v0,
                inv == inputs.view(),
                ps == old(self).ports@,
                ns == old(self).nodes@,
                v0 == old(self).vals(),
                circuit_wf(ns, v0),
                ports_wf(ps, v0),
                forall|q: int| 0 <= q < k && (#[trigger] ps[q]).direction == PortDirection::In ==> fits(inv, ps[q].name.value@, 0, ps[q].width as int),
            decreases ps.len() - k,
        {
            let p = &self.ports[k];
            if p.direction == PortDirection::In {
                let ok = match inputs.get_width(p.name.value.as_str()) {
                    Some(w) => p.width <= w,
                    None => false,
                };
                if !ok {
                    proof {
                        reveal_strlit("The inputs do not give every bit of every input port");
                        assert(!fits(inv, ps[k as int].name.value@, 0, ps[k as int].width as int));
                    }
                    return Err(N2VError { msg: String::from_str("The inputs do not give every bit of every input port"), kind: ErrorKind::Other });
                }
            }
            k = k + 1;
        }
        let mut k: usize = 0;
        while k < self.ports.len()
            invariant
                k <= ps.len(),
                self.ports@ == ps,
                self.nodes@ == ns,
                inputs_given(ps, inv),
                inv == inputs.view(),
                ports_wf(ps, v0),
                same_shape(v0, self.vals()),
                self.vals() == v0.update(0, set_inputs(v0[0], ps, inv, k as int)),
            decreases ps.len() - k,
        {
            let ghost vk = self.vals();
            let p = &self.ports[k];
            if p.direction == PortDirection::In {
                assert(ps[k as int].direction == PortDirection::In);
                let bits = inputs.get_bus(&Bus { name: p.name.value.clone(), range: Some(0..p.width) });
                let mut m = self.values.remove(0);
                proof {
                    assert(v0[0].contains_key(ps[k as int].name.value@));
                    assert(vk[0][p.name.value@].len() == v0[0][p.name.value@].len());
                }
                m.insert_option(&Bus { name: p.name.value.clone(), range: Some(0..p.width) }, bits);
                self.values.insert(0, m);
                proof {
                    let nm = copy_bits(vk[0], p.name.value@, 0, inv, p.name.value@, 0, p.width as int);
                    assert(self.vals() =~= vk.update(0, nm));
                    assert(nm.dom() =~= vk[0].dom());
                    assert(self.vals() =~= v0.update(0, set_inputs(v0[0], ps, inv, k + 1)));
                }
            }
            k = k + 1;
        }
        proof {
            lemma_wf_shape(ns, v0, self.vals());
        }
        let ghost vin = self.vals();
        self.compute_node(0);
        let ghost vf = self.vals();
        let mut out = BusMap::new();
        let mut k: usize = 0;
        proof {
            assert(out.view() =~= port_values(ps, vf[0], 0));
            lemma_shape_trans(v0, vin, vf);
            lemma_ports_shape(ps, v0, vf);
        }
        while k < self.ports.len()
            invariant
                k <= ps.len(),
                self.ports@ == ps,
                vf == self.vals(),
                ports_wf(ps, vf),
                out.view() == port_values(ps, vf[0], k as int),
            decreases ps.len() - k,
        {
            proof {
                lemma_port_values(ps, vf[0], k as int);
            }
            let p = &self.ports[k];
            assert(vf[0].contains_key(ps[k as int].name.value@));
            let bits = self.values[0].get_name(p.name.value.as_str());
            let ghost o0 = out.view();
            let _ = out.create_bus(p.name.value.as_str(), bits.len());
            let ghost o1 = out.view();
            assert(o1.contains_key(p.name.value@) && o1[p.name.value@].len() == bits.len());
            out.insert_option(&Bus { name: p.name.value.clone(), range: Some(0..bits.len()) }, bits);
            proof {
                let cur = o1[p.name.value@];
                if bits.len() > 0 {
                    assert(write_bits(cur, 0, bits.len() as int, bits@) =~= bits@);
                } else {
                    assert(cur =~= bits@);
                }
                assert(out.view() =~= port_values(ps, vf[0], k + 1));
            }
            k = k + 1;
        }
        proof {
            lemma_wf_shape(ns, v0, self.vals());
        }
        Ok(out)
    }
}

/// Whether an optional bound can be evaluated under `vars`.
pub open spec fn bound_defined(b: Option<GenericWidth>, vars: Map<Seq<char>, usize>) -> bool {
    b matches Some(x) ==> spec_eval_expr(x, numeric_state(vars)) is Some
}

/// Whether every bound of a port mapping can be evaluated under `vars`.
pub open spec fn mapping_defined(m: PortMappingHDL, vars: Map<Seq<char>, usize>) -> bool {
    &&& bound_defined(m.port.start, vars)
    &&& bound_defined(m.port.end, vars)
    &&& bound_defined(m.wire.start, vars)
    &&& bound_defined(m.wire.end, vars)
}

/// Whether the chip `hdl` with `generics`, and every chip under it down to
/// `fuel` levels, can be built and elaborated without a step that cannot be
/// carried out (see `chip_outcome` and `elaboration`).
pub open spec fn buildable(lib: Seq<ChipHDL>, hdl: ChipHDL, generics: Seq<usize>, fuel: nat) -> bool
    decreases fuel,
{
    if fuel == 0 {
        true
    } else {
        &&& chip_outcome(hdl, lib, generics) is Some
        &&& chip_outcome(hdl, lib, generics).unwrap() matches Ok(m) ==> {
            &&& elaboration(m, lib) is Some
            &&& forall|ci: int|
                0 <= ci < m.components.len() ==> {
                    let c = #[trigger] m.components[ci];
                    &&& generics_bound(c.generic_params, m.variables)
                    &&& forall|q: int| 0 <= q < c.mappings.len() ==> mapping_defined(#[trigger] c.mappings[q], m.variables)
                    &&& chip_named(lib, c.name.value@) matches Some(ph) ==> buildable(
                        lib,
                        ph,
                        part_generics(c.generic_params, m.variables),
                        (fuel - 1) as nat,
                    )
                }
        }
    }
}

/// Appending a node keeps the nodes before it well formed.
proof fn lemma_wf_push(ns: Seq<Node>, vs: Values, n: Node, v: Map<Seq<char>, Seq<Option<bool>>>)
    requires
        circuit_wf(ns, vs),
    ensures
        forall|x: int| 0 <= x < ns.len() ==> node_wf(ns.push(n), vs.push(v), x),
{
    assert forall|x: int| 0 <= x < ns.len() implies node_wf(ns.push(n), vs.push(v), x) by {
        assert(node_wf(ns, vs, x));
        assert(ns.push(n)[x] == ns[x]);
        assert(vs.push(v)[x] == vs[x]);
        let nd = ns[x];
        if nd.kind == Kind::Composite {
            assert forall|k: int, q: int|
                0 <= k < nd.parts.len() && 0 <= q < nd.links@[k].len() implies link_fits(vs.push(v), x, nd.parts@[k] as int, #[trigger] nd.links@[k]@[q]) by {
                let j = nd.parts@[k] as int;
                assert(link_fits(vs, x, j, nd.links@[k]@[q]));
                assert(vs.push(v)[j] == vs[j]);
            }
        }
    }
}

/// Replacing node `i` keeps the others well formed.
proof fn lemma_wf_replace(ns: Seq<Node>, vs: Values, i: int, n: Node)
    requires
        circuit_wf(ns, vs),
        0 <= i < ns.len(),
        node_wf(ns.update(i, n), vs, i),
    ensures
        circuit_wf(ns.update(i, n), vs),
{
    assert forall|x: int| 0 <= x < ns.len() implies node_wf(ns.update(i, n), vs, x) by {
        if x != i {
            assert(node_wf(ns, vs, x));
            assert(ns.update(i, n)[x] == ns[x]);
        }
    }
}

/// Extending the values keeps the nodes well formed where every node's
/// own values stay.
proof fn lemma_wf_grow(ns: Seq<Node>, vs: Values, ns2: Seq<Node>, vs2: Values)
    requires
        circuit_wf(ns, vs),
        ns.len() <= ns2.len(),
        ns2.len() == vs2.len(),
        forall|x: int| 0 <= x < ns.len() ==> ns2[x] == ns[x] && vs2[x] == vs[x],
    ensures
        forall|x: int| 0 <= x < ns.len() ==> node_wf(ns2, vs2, x),
{
    assert forall|x: int| 0 <= x < ns.len() implies node_wf(ns2, vs2, x) by {
        assert(node_wf(ns, vs, x));
        let nd = ns[x];
        if nd.kind == Kind::Composite {
            assert forall|k: int, q: int|
                0 <= k < nd.parts.len() && 0 <= q < nd.links@[k].len() implies link_fits(vs2, x, nd.parts@[k] as int, #[trigger] nd.links@[k]@[q]) by {
                let j = nd.parts@[k] as int;
                assert(link_fits(vs, x, j, nd.links@[k]@[q]));
            }
        }
    }
}

/// A bus of `n` copies of the known bit `b`.
fn literal_bus(m: &mut BusMap, name: &str, b: bool)
    ensures
        old(m).view().contains_key(name@) ==> final(m).view() == old(m).view(),
        !old(m).view().contains_key(name@) ==> final(m).view() == old(m).view().insert(name@, Seq::new(16, |i: int| Some(b))),
{
    if m.get_width(name).is_none() {
        let _ = m.create_bus(name, 16);
        let mut bits: Vec<bool> = Vec::new();
        let mut k: usize = 0;
        while k < 16
            invariant
                k <= 16,
                bits@ == Seq::new(k as nat, |i: int| b),
            decreases 16 - k,
        {
            bits.push(b);
            k = k + 1;
            assert(bits@ =~= Seq::new(k as nat, |i: int| b));
        }
        let ghost m1 = m.view();
        m.insert(Bus { name: String::from_str(name), range: Some(0..16) }, bits);
        proof {
            assert(crate::busmap::known(bits@) =~= Seq::new(16, |i: int| Some(b)));
            assert(write_bits(m1[name@], 0, 16, crate::busmap::known(bits@)) =~= Seq::new(16, |i: int| Some(b)));
        }
    }
}

/// Whether `n` fits `count` bits from `start` of the bus `name`, checked.
fn fits_exec(m: &BusMap, name: &str, start: usize, count: usize) -> (r: bool)
    ensures
        r == fits(m.view(), name@, start as int, count as int),
{
    match m.get_width(name) {
        Some(w) => start <= usize::MAX - count && start + count <= w,
        None => false,
    }
}

/// Evaluates an optional bound, `None` where there is none.
fn eval_opt(b: &Option<GenericWidth>, vars: &StrMap<usize>) -> (r: Result<Option<usize>, N2VError>)
    requires
        bound_defined(*b, vars.map()),
    ensures
        b is None ==> r == Ok::<Option<usize>, N2VError>(None),
        b is Some ==> (r matches Ok(x) ==> x matches Some(n) && spec_eval_expr(b.unwrap(), numeric_state(vars.map())) == Some(
            crate::expr::num(n),
        )),
{
    match b {
        None => Ok(None),
        Some(x) => match eval_expr_numeric(x, vars) {
            Ok(n) => Ok(Some(n)),
            Err(e) => Err(e),
        },
    }
}

/// The message where a mapping does not fit its buses.
fn misfit(port: &str) -> (e: N2VError) {
    text_error("Port mapping does not fit its buses: ", port, ErrorKind::Other)
}

/// Whether a slice bound gives the start `v`: its value under `vars`, or 0
/// where the slice has no bound.
pub open spec fn start_is(b: Option<GenericWidth>, vars: Map<Seq<char>, usize>, v: usize) -> bool {
    match b {
        None => v == 0,
        Some(x) => spec_eval_expr(x, numeric_state(vars)) == Some(crate::expr::num(v)),
    }
}

/// Whether link `l` carries the port mapping `m`: the wire and the port by
/// name, each from the start of its slice.
pub open spec fn link_of(m: PortMappingHDL, l: Link, vars: Map<Seq<char>, usize>) -> bool {
    &&& l.wire@ == m.wire.name@
    &&& l.port@ == m.port.name@
    &&& start_is(m.wire.start, vars, l.wire_start)
    &&& start_is(m.port.start, vars, l.port_start)
}

/// Whether the links `ls` carry the port mappings `ms`, one for one.
pub open spec fn links_of(ms: Seq<PortMappingHDL>, ls: Seq<Link>, vars: Map<Seq<char>, usize>) -> bool {
    &&& ls.len() == ms.len()
    &&& forall|q: int| 0 <= q < ms.len() ==> link_of(ms[q], #[trigger] ls[q], vars)
}

/// Whether node `n`, with values `v`, is the node of the chip `m`: one part
/// for each component, with a link for each of its port mappings in order,
/// and the constant buses `true` (16 one bits) and `false` (16 zero bits)
/// where the chip has no signal of that name.
pub open spec fn node_of(m: ChipModel, n: Node, v: Map<Seq<char>, Seq<Option<bool>>>) -> bool {
    &&& n.kind == Kind::Composite
    &&& n.links.len() == m.components.len()
    &&& forall|ci: int| 0 <= ci < m.components.len() ==> links_of(m.components[ci].mappings, (#[trigger] n.links@[ci])@, m.variables)
    &&& !m.signals.contains_key("true"@) ==> v.contains_key("true"@) && v["true"@] == Seq::new(16, |k: int| Some(true))
    &&& !m.signals.contains_key("false"@) ==> v.contains_key("false"@) && v["false"@] == Seq::new(16, |k: int| Some(false))
}

/// The constants of a built chip node: where the chip has no signal named
/// `true`, the bus `true` is 16 bits wide and every bit is a known one;
/// where it has none named `false`, `false` is 16 known zero bits.
pub proof fn lemma_chip_node_constants(m: ChipModel, n: Node, v: Map<Seq<char>, Seq<Option<bool>>>)
    requires
        node_of(m, n, v),
    ensures
        !m.signals.contains_key("true"@) ==> v["true"@].len() == 16 && forall|k: int| 0 <= k < 16 ==> #[trigger] v["true"@][k] == Some(true),
        !m.signals.contains_key("false"@) ==> v["false"@].len() == 16 && forall|k: int| 0 <= k < 16 ==> #[trigger] v["false"@][k] == Some(
            false,
        ),
{
}

/// Applying the input links of a part changes only the part's values and
/// keeps the width of every bus, where the links fit.
proof fn lemma_input_links_frame(vs: Values, ls: Seq<Link>, i: int, j: int, k: int)
    requires
        0 <= i < vs.len(),
        0 <= j < vs.len(),
        i != j,
        0 <= k <= ls.len(),
        forall|x: int| 0 <= x < ls.len() ==> link_fits(vs, i, j, #[trigger] ls[x]),
    ensures
        apply_links(vs, ls, i, j, true, k).len() == vs.len(),
        apply_links(vs, ls, i, j, true, k)[i] == vs[i],
        apply_links(vs, ls, i, j, true, k)[j].dom() == vs[j].dom(),
        forall|n: Seq<char>| #[trigger] vs[j].contains_key(n) ==> apply_links(vs, ls, i, j, true, k)[j][n].len() == vs[j][n].len(),
    decreases k,
{
    if k > 0 {
        lemma_input_links_frame(vs, ls, i, j, k - 1);
        let v = apply_links(vs, ls, i, j, true, k - 1);
        let l = ls[k - 1];
        if l.input {
            assert(link_fits(vs, i, j, l));
            let src = read_bits(v[i][l.wire@], l.wire_start as int, l.wire_start + l.count);
            crate::busmap::lemma_write_keeps_width(v[j][l.port@], l.port_start as int, l.port_start + l.count, src);
            let nv = apply_links(vs, ls, i, j, true, k);
            assert(nv[j].dom() =~= vs[j].dom());
        }
    }
}

/// A part reads the slice that its port mapping names: right after the
/// part's input link for mapping `q` of component `ci` is applied, the port
/// bits it covers are the bits of the wire from the value of the slice's
/// start (bit 0 where the slice has none), as the chip's node holds them.
/// So a part mapped to `in[k]` reads bit `k` of `in`.
pub proof fn lemma_part_reads_wire_slice(m: ChipModel, ns: Seq<Node>, vs: Values, i: int, ci: int, q: int)
    requires
        circuit_wf(ns, vs),
        0 <= i < ns.len(),
        node_of(m, ns[i], vs[i]),
        0 <= ci < m.components.len(),
        0 <= q < m.components[ci].mappings.len(),
        ns[i].links@[ci]@[q].input,
    ensures
        ({
            let mp = m.components[ci].mappings[q];
            let l = ns[i].links@[ci]@[q];
            let j = ns[i].parts@[ci] as int;
            let v = apply_links(vs, ns[i].links@[ci]@, i, j, true, q + 1);
            &&& start_is(mp.wire.start, m.variables, l.wire_start)
            &&& start_is(mp.port.start, m.variables, l.port_start)
            &&& read_bits(v[j][mp.port.name@], l.port_start as int, l.port_start + l.count) == read_bits(
                vs[i][mp.wire.name@],
                l.wire_start as int,
                l.wire_start + l.count,
            )
        }),
{
    let n = ns[i];
    let ls = n.links@[ci]@;
    assert(links_of(m.components[ci].mappings, ls, m.variables));
    assert(link_of(m.components[ci].mappings[q], ls[q], m.variables));
    let l = ls[q];
    let j = n.parts@[ci] as int;
    assert(node_wf(ns, vs, i));
    assert(i < j < ns.len());
    assert forall|x: int| 0 <= x < ls.len() implies link_fits(vs, i, j, #[trigger] ls[x]) by {
        assert(link_fits(vs, i, n.parts@[ci] as int, n.links@[ci]@[x]));
    }
    lemma_input_links_frame(vs, ls, i, j, q);
    let v0 = apply_links(vs, ls, i, j, true, q);
    assert(link_fits(vs, i, j, l));
    let src = read_bits(v0[i][l.wire@], l.wire_start as int, l.wire_start + l.count);
    let cur = v0[j][l.port@];
    assert(cur.len() == vs[j][l.port@].len());
    if l.count > 0 {
        assert(src.len() == l.count);
        assert(read_bits(crate::busmap::write_bits(cur, l.port_start as int, l.port_start + l.count, src), l.port_start as int, l.port_start + l.count) =~= src);
    }
}

/// What appending the nodes of a chip keeps and gives: the nodes before stay
/// as they are, the circuit stays well formed, and the first new node has a
/// bus of each port `ps` of its width.
pub open spec fn added(ns0: Seq<Node>, vs0: Values, ns: Seq<Node>, vs: Values, ps: Seq<Port>) -> bool {
    &&& ns.len() > ns0.len()
    &&& circuit_wf(ns, vs)
    &&& forall|x: int| 0 <= x < ns0.len() ==> #[trigger] ns[x] == ns0[x] && vs[x] == vs0[x]
    &&& forall|k: int| 0 <= k < ps.len() ==> #[trigger] vs[ns0.len() as int].contains_key(ps[k].name.value@) && vs[ns0.len() as int][ps[k].name.value@].len()
        == ps[k].width
}

/// Appends the nodes of the chip `hdl` with `generics` and of every chip
/// under it, the chip first, and gives the chip's ports.
#[verifier::rlimit(80)]
#[verifier::spinoff_prover]
fn add_node(
    nodes: &mut Vec<Node>,
    values: &mut Vec<BusMap>,
    hdl: &ChipHDL,
    library: &Vec<ChipHDL>,
    generics: &Vec<usize>,
    fuel: usize,
) -> (r: Result<Vec<Port>, N2VError>)
    requires
        buildable(library@, *hdl, generics@, fuel as nat),
        circuit_wf(old(nodes)@, vals_of(old(values)@)),
    ensures
        r matches Ok(ps) ==> added(old(nodes)@, vals_of(old(values)@), final(nodes)@, vals_of(final(values)@), ps@),
        r is Ok ==> (chip_outcome(*hdl, library@, generics@) matches Some(Ok(m)) && {
            let i = old(nodes)@.len() as int;
            &&& (final(nodes)@[i].kind == Kind::Composite <==> !(upper_text(hdl.name@) == "NAND"@ || upper_text(hdl.name@) == "DFF"@))
            &&& final(nodes)@[i].kind == Kind::Composite ==> node_of(m, final(nodes)@[i], vals_of(final(values)@)[i])
        }),
    decreases fuel,
{
    if fuel == 0 {
        return Err(text_error("Chip hierarchy too deep at ", hdl.name.as_str(), ErrorKind::Other));
    }
    let chip = match Chip::new(hdl, library, true, generics) {
        Ok(c) => c,
        Err(e) => return Err(e),
    };
    let ghost m = chip_outcome(*hdl, library@, generics@).unwrap()->Ok_0;
    let ghost ns0 = nodes@;
    let ghost vs0 = vals_of(values@);
    let i = nodes.len();
    let up = to_uppercase(hdl.name.as_str());
    let mut sigs = chip.signals;
    let mut ports: Vec<Port> = Vec::new();
    let mut p: usize = 0;
    while p < chip.ports.len()
        invariant
            p <= chip.ports.len(),
            ports.len() == p,
            forall|k: int| 0 <= k < p ==> #[trigger] sigs.view().contains_key(ports@[k].name.value@) && sigs.view()[ports@[k].name.value@].len() == ports@[k].width,
        decreases chip.ports.len() - p,
    {
        let q = &chip.ports[p];
        match sigs.get_width(q.name.value.as_str()) {
            Some(w) => {
                if w != q.width {
                    return Err(misfit(q.name.value.as_str()));
                }
            },
            None => return Err(misfit(q.name.value.as_str())),
        }
        ports.push(q.clone());
        p = p + 1;
    }
    if key_eq(up.as_str(), "NAND") || key_eq(up.as_str(), "DFF") {
        let is_nand = key_eq(up.as_str(), "NAND");
        let kind = if is_nand { Kind::Nand } else { Kind::Dff };
        let ok = if is_nand {
            fits_exec(&sigs, "a", 0, 1) && fits_exec(&sigs, "b", 0, 1) && fits_exec(&sigs, "out", 0, 1)
                && sigs.get_width("a") == Some(1usize) && sigs.get_width("b") == Some(1usize) && sigs.get_width("out") == Some(1usize)
        } else {
            sigs.get_width("in") == Some(1usize) && sigs.get_width("out") == Some(1usize)
        };
        if !ok {
            return Err(misfit(hdl.name.as_str()));
        }
        let n = Node { kind, assignments: Vec::new(), parts: Vec::new(), links: Vec::new() };
        let ghost sv = sigs.view();
        proof {
            lemma_wf_push(ns0, vs0, n, sv);
        }
        nodes.push(n);
        values.push(sigs);
        proof {
            assert(vals_of(values@) =~= vs0.push(sv));
            assert(node_wf(nodes@, vals_of(values@), i as int));
            assert(forall|x: int| 0 <= x < ns0.len() ==> nodes@[x] == ns0[x] && vals_of(values@)[x] == vs0[x]);
            assert(vals_of(values@)[i as int] == sv);
            assert forall|k: int| 0 <= k < ports.len() implies #[trigger] vals_of(values@)[i as int].contains_key(ports@[k].name.value@)
                && vals_of(values@)[i as int][ports@[k].name.value@].len() == ports@[k].width by {
                assert(sv.contains_key(ports@[k].name.value@));
            }
            assert(added(ns0, vs0, nodes@, vals_of(values@), ports@));
        }
        return Ok(ports);
    }
    let ghost sp = sigs.view();
    proof {
        assert(sp == m.signals);
    }
    literal_bus(&mut sigs, "true", true);
    let ghost s1 = sigs.view();
    literal_bus(&mut sigs, "false", false);
    let ghost sv = sigs.view();
    proof {
        assert("true"@ != "false"@) by {
            reveal_strlit("true");
            reveal_strlit("false");
            assert("true"@.len() != "false"@.len());
        }
        assert(!m.signals.contains_key("true"@) ==> sv.contains_key("true"@) && sv["true"@] == Seq::new(16, |k: int| Some(true)));
        assert(!m.signals.contains_key("false"@) ==> sv.contains_key("false"@) && sv["false"@] == Seq::new(16, |k: int| Some(false)));
        assert forall|k: int| 0 <= k < ports.len() implies #[trigger] sv.contains_key(ports@[k].name.value@)
            && sv[ports@[k].name.value@].len() == ports@[k].width by {
            assert(sp.contains_key(ports@[k].name.value@));
        }
    }
    let placeholder = Node { kind: Kind::Composite, assignments: Vec::new(), parts: Vec::new(), links: Vec::new() };
    proof {
        lemma_wf_push(ns0, vs0, placeholder, sv);
    }
    nodes.push(placeholder);
    values.push(sigs);
    proof {
        assert(vals_of(values@) =~= vs0.push(sv));
        assert(node_wf(nodes@, vals_of(values@), i as int));
    }
    let mut parts: Vec<usize> = Vec::new();
    let mut links: Vec<Vec<Link>> = Vec::new();
    let mut ci: usize = 0;
    while ci < chip.components.len()
        invariant
            ci <= chip.components.len(),
            buildable(library@, *hdl, generics@, fuel as nat),
            fuel > 0,
            chip.model() == m,
            chip_outcome(*hdl, library@, generics@) == Some(Ok::<crate::chip::ChipModel, (Seq<char>, ErrorKind)>(m)),
            i == ns0.len(),
            i < nodes.len(),
            circuit_wf(nodes@, vals_of(values@)),
            forall|x: int| 0 <= x < ns0.len() ==> nodes@[x] == ns0[x] && vals_of(values@)[x] == vs0[x],
            vals_of(values@)[i as int] == sv,
            forall|k: int| 0 <= k < ports.len() ==> #[trigger] sv.contains_key(ports@[k].name.value@)
                && sv[ports@[k].name.value@].len() == ports@[k].width,
            nodes@[i as int].kind == Kind::Composite,
            parts.len() == links.len(),
            links.len() == ci,
            m.components.len() == chip.components.len(),
            forall|k: int| 0 <= k < ci ==> links_of(m.components[k].mappings, (#[trigger] links@[k])@, m.variables),
            !m.signals.contains_key("true"@) ==> sv.contains_key("true"@) && sv["true"@] == Seq::new(16, |k: int| Some(true)),
            !m.signals.contains_key("false"@) ==> sv.contains_key("false"@) && sv["false"@] == Seq::new(16, |k: int| Some(false)),
            forall|k: int| 0 <= k < parts.len() ==> i < #[trigger] parts@[k] < nodes.len(),
            forall|k: int, q: int|
                0 <= k < parts.len() && 0 <= q < links@[k].len() ==> link_fits(vals_of(values@), i as int, parts@[k] as int, #[trigger] links@[k]@[q]),
        decreases chip.components.len() - ci,
    {
        let c = &chip.components[ci];
        proof {
            assert(m.components[ci as int] == c@);
        }
        let ph = match get_hdl(c.name.value.as_str(), library) {
            Some(h) => h,
            None => return Err(missing_chip(c.name.value.as_str())),
        };
        let mut rg: Vec<usize> = Vec::new();
        let mut g: usize = 0;
        proof {
            assert(c.generic_params@.take(0) =~= Seq::<GenericWidth>::empty());
        }
        while g < c.generic_params.len()
            invariant
                g <= c.generic_params.len(),
                chip.variables.map() == m.variables,
                generics_bound(c.generic_params@, m.variables),
                rg@ == part_generics(c.generic_params@.take(g as int), m.variables),
            decreases c.generic_params.len() - g,
        {
            proof {
                assert(c.generic_params@.take(g + 1).drop_last() =~= c.generic_params@.take(g as int));
                assert(c.generic_params@.take(g + 1).last() == c.generic_params@[g as int]);
            }
            match &c.generic_params[g] {
                GenericWidth::Terminal(Terminal::Num(w)) => {
                    rg.push(*w);
                },
                GenericWidth::Terminal(Terminal::Var(v)) => {
                    assert(m.variables.contains_key(v.value@));
                    let x = chip.variables.get(v.value.as_str()).unwrap();
                    rg.push(*x);
                },
                _ => {},
            }
            g = g + 1;
        }
        proof {
            assert(c.generic_params@.take(g as int) =~= c.generic_params@);
        }
        let j = nodes.len();
        let ghost nsb = nodes@;
        let ghost vsb = vals_of(values@);
        proof {
            let cc = m.components[ci as int];
            assert(chip_named(library@, cc.name.value@) == Some(*ph));
        }
        let _child_ports = match add_node(nodes, values, ph, library, &rg, fuel - 1) {
            Ok(x) => x,
            Err(e) => return Err(e),
        };
        proof {
            lemma_wf_grow(nsb, vsb, nodes@, vals_of(values@));
            assert(m.components[ci as int] == c@);
            assert forall|k: int, q: int|
                0 <= k < parts.len() && 0 <= q < links@[k].len() implies link_fits(vals_of(values@), i as int, parts@[k] as int, #[trigger] links@[k]@[q]) by {
                assert(link_fits(vsb, i as int, parts@[k] as int, links@[k]@[q]));
                assert(nodes@[i as int] == nsb[i as int]);
                assert(nodes@[parts@[k] as int] == nsb[parts@[k] as int]);
            }
            assert(vals_of(values@)[i as int] == sv);
            assert(forall|x: int| 0 <= x < ns0.len() ==> nodes@[x] == ns0[x] && vals_of(values@)[x] == vs0[x]);
        }
        let mut ls: Vec<Link> = Vec::new();
        let mut q: usize = 0;
        while q < c.mappings.len()
            invariant
                q <= c.mappings.len(),
                chip.variables.map() == m.variables,
                m.components[ci as int] == c@,
                forall|x: int| 0 <= x < c.mappings.len() ==> mapping_defined(#[trigger] m.components[ci as int].mappings[x], m.variables),
                i < j < nodes.len(),
                j < values.len(),
                nodes.len() == values.len(),
                forall|x: int| 0 <= x < ls.len() ==> link_fits(vals_of(values@), i as int, j as int, #[trigger] ls@[x]),
                ls.len() == q,
                forall|x: int| 0 <= x < q ==> link_of(m.components[ci as int].mappings[x], #[trigger] ls@[x], m.variables),
            decreases c.mappings.len() - q,
        {
            let mp = &c.mappings[q];
            assert(mapping_defined(m.components[ci as int].mappings[q as int], m.variables));
            let pi = match ph.port_index(mp.port.name.as_str()) {
                Some(x) => x,
                None => return Err(text_error("Attempt to get non-existent port ", mp.port.name.as_str(), ErrorKind::ParseIdentError(mp.wire_ident.clone()))),
            };
            let input = ph.ports[pi].direction == PortDirection::In;
            let pw = match values[j].get_width(mp.port.name.as_str()) {
                Some(w) => w,
                None => return Err(misfit(mp.port.name.as_str())),
            };
            let ps = match eval_opt(&mp.port.start, &chip.variables) {
                Ok(x) => match x { Some(v) => v, None => 0 },
                Err(e) => return Err(e),
            };
            let pe = match eval_opt(&mp.port.end, &chip.variables) {
                Ok(x) => match x {
                    Some(v) => v,
                    None => {
                        if pw == 0 {
                            return Err(misfit(mp.port.name.as_str()));
                        }
                        pw - 1
                    },
                },
                Err(e) => return Err(e),
            };
            let ws = match eval_opt(&mp.wire.start, &chip.variables) {
                Ok(x) => match x { Some(v) => v, None => 0 },
                Err(e) => return Err(e),
            };
            match eval_opt(&mp.wire.end, &chip.variables) {
                Ok(_) => {},
                Err(e) => return Err(e),
            }
            if pe == usize::MAX {
                return Err(misfit(mp.port.name.as_str()));
            }
            let count = if ps <= pe + 1 { pe + 1 - ps } else { 0 };
            if !fits_exec(&values[i], mp.wire.name.as_str(), ws, count) || !fits_exec(&values[j], mp.port.name.as_str(), ps, count) {
                return Err(misfit(mp.port.name.as_str()));
            }
            let l = Link { input, port: mp.port.name.clone(), port_start: ps, wire: mp.wire.name.clone(), wire_start: ws, count };
            proof {
                assert(m.components[ci as int].mappings[q as int] == *mp);
                assert(link_of(*mp, l, m.variables));
            }
            let ghost ls0 = ls@;
            ls.push(l);
            proof {
                assert forall|x: int| 0 <= x < q + 1 implies link_of(m.components[ci as int].mappings[x], #[trigger] ls@[x], m.variables) by {
                    if x < q {
                        assert(ls@[x] == ls0[x]);
                    }
                }
            }
            q = q + 1;
        }
        let ghost pb = parts@;
        let ghost lb = links@;
        parts.push(j);
        links.push(ls);
        proof {
            assert forall|k: int, q: int|
                0 <= k < parts.len() && 0 <= q < links@[k].len() implies link_fits(vals_of(values@), i as int, parts@[k] as int, #[trigger] links@[k]@[q]) by {
                if k < pb.len() {
                    assert(parts@[k] == pb[k] && links@[k] == lb[k]);
                } else {
                    assert(links@[k]@[q] == ls@[q]);
                }
            }
            assert forall|k: int| 0 <= k < ci + 1 implies links_of(m.components[k].mappings, (#[trigger] links@[k])@, m.variables) by {
                if k < ci {
                    assert(links@[k] == lb[k]);
                } else {
                    assert(links@[k] == ls);
                }
            }
        }
        ci = ci + 1;
    }
    let mut asgs: Vec<Assign> = Vec::new();
    let mut a: usize = 0;
    while a < chip.assignments.len()
        invariant
            a <= chip.assignments.len(),
            i < values.len(),
            forall|x: int| 0 <= x < asgs.len() ==> fits(vals_of(values@)[i as int], (#[trigger] asgs@[x]).left@, 0, asgs@[x].width as int)
                && fits(vals_of(values@)[i as int], asgs@[x].right@, 0, asgs@[x].width as int),
        decreases chip.assignments.len() - a,
    {
        let x = &chip.assignments[a];
        if !fits_exec(&values[i], x.left.name.as_str(), 0, x.width) || !fits_exec(&values[i], x.right.name.as_str(), 0, x.width) {
            return Err(misfit(x.left.name.as_str()));
        }
        asgs.push(Assign { left: x.left.name.clone(), right: x.right.name.clone(), width: x.width });
        a = a + 1;
    }
    if parts.len() >= usize::MAX - asgs.len() {
        return Err(misfit(hdl.name.as_str()));
    }
    let n = Node { kind: Kind::Composite, assignments: asgs, parts, links };
    let ghost nsf = nodes@;
    let ghost vsf = vals_of(values@);
    proof {
        assert(node_wf(nsf.update(i as int, n), vsf, i as int));
        lemma_wf_replace(nsf, vsf, i as int, n);
    }
    let _old = nodes.remove(i);
    nodes.insert(i, n);
    proof {
        assert(nodes@ =~= nsf.update(i as int, n));
        assert(forall|x: int| 0 <= x < ns0.len() ==> nodes@[x] == ns0[x] && vals_of(values@)[x] == vs0[x]);
        assert forall|k: int| 0 <= k < ports.len() implies #[trigger] vals_of(values@)[i as int].contains_key(ports@[k].name.value@)
            && vals_of(values@)[i as int][ports@[k].name.value@].len() == ports@[k].width by {
            assert(sv.contains_key(ports@[k].name.value@));
        }
        assert(added(ns0, vs0, nodes@, vals_of(values@), ports@));
        assert(vals_of(values@)[i as int] == sv);
        assert(nodes@[i as int] == n);
        assert(node_of(m, n, sv));
    }
    Ok(ports)
}

impl Circuit {
    /// Builds the circuit of the chip `hdl` with `generics`: the chip and
    /// every chip under it, each built and elaborated (see `Chip::new`), with
    /// the wiring of each part resolved and checked to fit its buses, and the
    /// constant buses `true` and `false` (16 bits) where a chip lacks them.
    /// The chip's own node is a gate exactly where the chip is the Nand or
    /// the DFF, and otherwise `node_of` the chip: each link carries its port
    /// mapping from the evaluated start of each slice.
    pub fn build(hdl: &ChipHDL, library: &Vec<ChipHDL>, generics: &Vec<usize>) -> (r: Result<Circuit, N2VError>)
        requires
            library.len() < usize::MAX - 2,
            buildable(library@, *hdl, generics@, (library.len() + 2) as nat),
        ensures
            r matches Ok(c) ==> circuit_wf(c.nodes@, c.vals()) && ports_wf(c.ports@, c.vals()),
            r matches Ok(c) ==> (chip_outcome(*hdl, library@, generics@) matches Some(Ok(m)) && {
                &&& (c.nodes@[0].kind == Kind::Composite <==> !(upper_text(hdl.name@) == "NAND"@ || upper_text(hdl.name@) == "DFF"@))
                &&& c.nodes@[0].kind == Kind::Composite ==> node_of(m, c.nodes@[0], c.vals()[0])
            }),
    {
        let mut nodes: Vec<Node> = Vec::new();
        let mut values: Vec<BusMap> = Vec::new();
        proof {
            assert(vals_of(values@) =~= Seq::<Map<Seq<char>, Seq<Option<bool>>>>::empty());
        }
        let ports = match add_node(&mut nodes, &mut values, hdl, library, generics, library.len() + 2) {
            Ok(p) => p,
            Err(e) => return Err(e),
        };
        let c = Circuit { nodes, values, ports };
        proof {
            assert(circuit_wf(c.nodes@, c.vals()));
            assert forall|k: int| 0 <= k < c.ports@.len() implies #[trigger] c.vals()[0].contains_key(c.ports@[k].name.value@) && c.vals()[0][c.ports@[k].name.value@].len() == c.ports@[k].width by {
                assert(vals_of(c.values@)[0].contains_key(c.ports@[k].name.value@));
            }
        }
        Ok(c)
    }
}


/// A simulation of one chip: its circuit, whose flip-flops keep their state
/// from one step to the next.
pub struct Simulator {
    pub circuit: Circuit,
}

impl Simulator {
    /// A simulator of the chip built as `circuit`.
    pub fn new(circuit: Circuit) -> (r: Simulator)
        ensures
            r.circuit == circuit,
    {
        Simulator { circuit }
    }

    /// One step with `inputs`: the inputs are set, the chip computes, and
    /// the values of its ports come back (as `Circuit::compute`).
    pub fn simulate(&mut self, inputs: &BusMap) -> (r: Result<BusMap, N2VError>)
        requires
            circuit_wf(old(self).circuit.nodes@, old(self).circuit.vals()),
            ports_wf(old(self).circuit.ports@, old(self).circuit.vals()),
        ensures
            final(self).circuit.nodes@ == old(self).circuit.nodes@,
            final(self).circuit.ports@ == old(self).circuit.ports@,
            circuit_wf(final(self).circuit.nodes@, final(self).circuit.vals()),
            ports_wf(final(self).circuit.ports@, final(self).circuit.vals()),
            !inputs_given(old(self).circuit.ports@, inputs.view()) ==> (r matches Err(e) && e.msg@ == missing_inputs_msg()
                && e.kind == ErrorKind::Other && final(self).circuit.vals() == old(self).circuit.vals()),
            inputs_given(old(self).circuit.ports@, inputs.view()) ==> {
                let c = old(self).circuit;
                let v = eval_node(c.nodes@, c.vals().update(0, set_inputs(c.vals()[0], c.ports@, inputs.view(), c.ports.len() as int)), 0);
                &&& final(self).circuit.vals() == v
                &&& r matches Ok(out) && out.view() == port_values(c.ports@, v[0], c.ports.len() as int)
            },
    {
        self.circuit.compute(inputs)
    }

    /// Advances the clock without changing the inputs: every flip-flop's
    /// output takes its input.
    pub fn tick(&mut self) -> (r: Result<(), N2VError>)
        requires
            circuit_wf(old(self).circuit.nodes@, old(self).circuit.vals()),
        ensures
            r is Ok,
            final(self).circuit.nodes@ == old(self).circuit.nodes@,
            final(self).circuit.ports@ == old(self).circuit.ports@,
            final(self).circuit.vals() == tick_vals(old(self).circuit.nodes@, old(self).circuit.vals(), old(self).circuit.nodes.len() as int),
            same_shape(old(self).circuit.vals(), final(self).circuit.vals()),
    {
        self.circuit.tick();
        Ok(())
    }
}

} // verus!
