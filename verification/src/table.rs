//! Truth tables: a chip simulated on every combination of its input bits.
use crate::busmap::{BusMap, known};
use crate::circuit::{Circuit, Node, Values, circuit_wf, eval_node, inputs_given, port_values, ports_wf, set_inputs};
use crate::error::{ErrorKind, N2VError};
use crate::parser::PortDirection;
use crate::simulator::{Bus, Port};
use vstd::prelude::*;

verus! {

/// Bit `b` of `i`, counting from the lowest.
pub open spec fn bit_of(i: nat, b: nat) -> bool
    decreases b,
{
    if b == 0 {
        i % 2 == 1
    } else {
        bit_of(i / 2, (b - 1) as nat)
    }
}

/// Two to the power `w`: the number of rows of a table of `w` input bits.
pub open spec fn row_count(w: nat) -> nat
    decreases w,
{
    if w == 0 {
        1
    } else {
        2 * row_count((w - 1) as nat)
    }
}

/// The total width of the input ports among the first `k` ports.
pub open spec fn input_width(ports: Seq<Port>, k: int) -> int
    decreases k,
{
    if k <= 0 || k > ports.len() {
        0
    } else {
        input_width(ports, k - 1) + if ports[k - 1].direction == PortDirection::In {
            ports[k - 1].width as int
        } else {
            0
        }
    }
}

/// The inputs of row `i`, set by the first `k` ports: the input ports, in
/// order, take the bits of `i` from the lowest up, each port's highest bit
/// first. A port named twice keeps the bits of its last input port.
pub open spec fn row_inputs(ports: Seq<Port>, i: nat, k: int) -> Map<Seq<char>, Seq<Option<bool>>>
    decreases k,
{
    if k <= 0 || k > ports.len() {
        Map::empty()
    } else {
        let m = row_inputs(ports, i, k - 1);
        let p = ports[k - 1];
        if p.direction == PortDirection::In {
            let c = input_width(ports, k - 1);
            m.insert(p.name.value@, Seq::new(p.width as nat, |j: int| Some(bit_of(i, (c + p.width - 1 - j) as nat))))
        } else {
            m
        }
    }
}

/// A row of the table: the bits of every port in `out`, in port order.
pub open spec fn table_row(ports: Seq<Port>, out: Map<Seq<char>, Seq<Option<bool>>>) -> Seq<Seq<Option<bool>>> {
    Seq::new(ports.len(), |c: int| out[ports[c].name.value@])
}

/// The values after simulating rows `0..k` one after the other from `vs`,
/// and the rows.
pub open spec fn table_fold(ns: Seq<Node>, ports: Seq<Port>, vs: Values, k: nat) -> (Values, Seq<Seq<Seq<Option<bool>>>>)
    decreases k,
{
    if k == 0 {
        (vs, Seq::empty())
    } else {
        let (v1, rows) = table_fold(ns, ports, vs, (k - 1) as nat);
        let inp = row_inputs(ports, (k - 1) as nat, ports.len() as int);
        let v2 = eval_node(ns, v1.update(0, set_inputs(v1[0], ports, inp, ports.len() as int)), 0);
        (v2, rows.push(table_row(ports, port_values(ports, v2[0], ports.len() as int))))
    }
}

/// The message where the inputs are too wide for a table.
pub open spec fn too_many_rows_msg() -> Seq<char> {
    "Too many rows in truth table to display (max 32)."@
}

proof fn lemma_row_count_monotone(a: nat, b: nat)
    requires
        a <= b,
    ensures
        row_count(a) <= row_count(b),
    decreases b,
{
    if a < b {
        lemma_row_count_monotone(a, (b - 1) as nat);
    }
}

proof fn lemma_input_width_monotone(ports: Seq<Port>, a: int, b: int)
    requires
        0 <= a <= b <= ports.len(),
    ensures
        input_width(ports, a) <= input_width(ports, b),
    decreases b,
{
    if a < b {
        lemma_input_width_monotone(ports, a, b - 1);
    }
}

/// The port values name every port.
proof fn lemma_port_values_names(ports: Seq<Port>, m: Map<Seq<char>, Seq<Option<bool>>>, k: int)
    requires
        0 <= k <= ports.len(),
    ensures
        forall|c: int| 0 <= c < k ==> #[trigger] port_values(ports, m, k).contains_key(ports[c].name.value@),
    decreases k,
{
    if k > 0 {
        lemma_port_values_names(ports, m, k - 1);
        assert forall|c: int| 0 <= c < k implies #[trigger] port_values(ports, m, k).contains_key(ports[c].name.value@) by {
            if c < k - 1 {
                assert(port_values(ports, m, k - 1).contains_key(ports[c].name.value@));
            }
        }
    }
}

/// The fold has one row for each step.
proof fn lemma_table_fold_len(ns: Seq<Node>, ports: Seq<Port>, vs: Values, k: nat)
    ensures
        table_fold(ns, ports, vs, k).1.len() == k,
    decreases k,
{
    if k > 0 {
        lemma_table_fold_len(ns, ports, vs, (k - 1) as nat);
    }
}

/// The low `w` bits of `i`, lowest first.
fn low_bits(i: usize, w: usize) -> (r: Vec<bool>)
    ensures
        r@.len() == w,
        forall|b: int| 0 <= b < w ==> #[trigger] r@[b] == bit_of(i as nat, b as nat),
{
    let mut r: Vec<bool> = Vec::new();
    let mut x: usize = i;
    let mut b: usize = 0;
    while b < w
        invariant
            b <= w,
            r@.len() == b,
            forall|q: int| 0 <= q < b ==> #[trigger] r@[q] == bit_of(i as nat, q as nat),
            forall|t: nat| #[trigger] bit_of(x as nat, t) == bit_of(i as nat, (b + t) as nat),
        decreases w - b,
    {
        proof {
            assert(bit_of(x as nat, 0) == bit_of(i as nat, b as nat));
        }
        r.push(x % 2 == 1);
        let ghost x0 = x;
        x = x / 2;
        proof {
            assert forall|t: nat| #[trigger] bit_of(x as nat, t) == bit_of(i as nat, (b + 1 + t) as nat) by {
                assert(bit_of(x0 as nat, t + 1) == bit_of(x as nat, t));
                assert(bit_of(x0 as nat, t + 1) == bit_of(i as nat, (b + (t + 1)) as nat));
            }
        }
        b = b + 1;
    }
    r
}

/// The inputs of row `i` as a bus map.
fn row_bus_map(ports: &Vec<Port>, i: usize, total: usize, Ghost(cur): Ghost<Map<Seq<char>, Seq<Option<bool>>>>) -> (r: BusMap)
    requires
        total == input_width(ports@, ports.len() as int),
        forall|k: int| 0 <= k < ports.len() ==> #[trigger] cur.contains_key(ports@[k].name.value@) && cur[ports@[k].name.value@].len()
            == ports@[k].width,
    ensures
        r.view() == row_inputs(ports@, i as nat, ports.len() as int),
        inputs_given(ports@, r.view()),
{
    let lsb = low_bits(i, total);
    let mut m = BusMap::new();
    let mut k: usize = 0;
    let mut c: usize = 0;
    while k < ports.len()
        invariant
            k <= ports.len(),
            total == input_width(ports@, ports.len() as int),
            c == input_width(ports@, k as int),
            lsb@.len() == total,
            forall|b: int| 0 <= b < total ==> #[trigger] lsb@[b] == bit_of(i as nat, b as nat),
            forall|q: int| 0 <= q < ports.len() ==> #[trigger] cur.contains_key(ports@[q].name.value@) && cur[ports@[q].name.value@].len() == ports@[q].width,
            m.view() == row_inputs(ports@, i as nat, k as int),
            forall|n: Seq<char>| #[trigger] m.view().contains_key(n) ==> cur.contains_key(n) && m.view()[n].len() == cur[n].len(),
            forall|q: int| 0 <= q < k && (#[trigger] ports@[q]).direction == PortDirection::In ==> m.view().contains_key(ports@[q].name.value@),
        decreases ports.len() - k,
    {
        proof {
            lemma_input_width_monotone(ports@, k as int + 1, ports.len() as int);
        }
        let p = &ports[k];
        if p.direction == PortDirection::In {
            let w = p.width;
            let ghost m0 = m.view();
            let mut bits: Vec<bool> = Vec::new();
            let mut j: usize = 0;
            while j < w
                invariant
                    j <= w,
                    w == ports@[k as int].width,
                    c + w <= total,
                    lsb@.len() == total,
                    forall|b: int| 0 <= b < total ==> #[trigger] lsb@[b] == bit_of(i as nat, b as nat),
                    bits@.len() == j,
                    forall|q: int| 0 <= q < j ==> #[trigger] bits@[q] == bit_of(i as nat, (c + w - 1 - q) as nat),
                decreases w - j,
            {
                bits.push(lsb[c + w - 1 - j]);
                j = j + 1;
            }
            let created = m.create_bus(p.name.value.as_str(), w);
            match created {
                Ok(()) => {},
                Err(_) => {
                    proof {
                        assert(cur.contains_key(ports@[k as int].name.value@));
                    }
                },
            }
            let ghost m1 = m.view();
            m.insert(Bus { name: p.name.value.clone(), range: None }, bits);
            proof {
                let sq = Seq::new(w as nat, |q: int| Some(bit_of(i as nat, (c + w - 1 - q) as nat)));
                assert(m1[p.name.value@].len() == w);
                assert(known(bits@) =~= sq);
                if w > 0 {
                    assert(crate::busmap::write_bits(m1[p.name.value@], 0, w as int, known(bits@)) =~= sq);
                } else {
                    assert(m1[p.name.value@] =~= sq);
                }
                assert(m.view() =~= row_inputs(ports@, i as nat, k + 1));
            }
            c = c + w;
        } else {
            proof {
                assert(m.view() =~= row_inputs(ports@, i as nat, k + 1));
            }
        }
        k = k + 1;
    }
    proof {
        assert forall|q: int| 0 <= q < ports.len() && (#[trigger] ports@[q]).direction == PortDirection::In implies crate::circuit::fits(
            m.view(),
            ports@[q].name.value@,
            0,
            ports@[q].width as int,
        ) by {
            assert(cur.contains_key(ports@[q].name.value@));
        }
    }
    m
}

/// The truth table of the chip simulated by `circuit`: the names of its
/// ports, and one row for each combination of input bits, counted up from
/// zero, with the bits of every port after the chip computed on it. The
/// rows are simulated one after the other, so flip-flops carry their state
/// on. `Err` where the inputs are more than 10 bits wide.
pub fn full_table_internal(circuit: &mut Circuit) -> (r: Result<(Vec<String>, Vec<Vec<Vec<Option<bool>>>>), N2VError>)
    requires
        circuit_wf(old(circuit).nodes@, old(circuit).vals()),
        ports_wf(old(circuit).ports@, old(circuit).vals()),
        input_width(old(circuit).ports@, old(circuit).ports.len() as int) < 32,
    ensures
        final(circuit).nodes@ == old(circuit).nodes@,
        final(circuit).ports@ == old(circuit).ports@,
        input_width(old(circuit).ports@, old(circuit).ports.len() as int) > 10 ==> (r matches Err(e) && e.msg@ == too_many_rows_msg()
            && e.kind == ErrorKind::Other && final(circuit).vals() == old(circuit).vals()),
        input_width(old(circuit).ports@, old(circuit).ports.len() as int) <= 10 ==> {
            let ps = old(circuit).ports@;
            let (v, rows) = table_fold(
                old(circuit).nodes@,
                ps,
                old(circuit).vals(),
                row_count(input_width(ps, ps.len() as int) as nat),
            );
            &&& final(circuit).vals() == v
            &&& r matches Ok((cols, tab)) && {
                &&& cols@.len() == ps.len()
                &&& forall|c: int| 0 <= c < ps.len() ==> #[trigger] cols@[c]@ == ps[c].name.value@
                &&& tab@.len() == rows.len()
                &&& forall|i: int| 0 <= i < rows.len() ==> (#[trigger] tab@[i])@.len() == ps.len()
                &&& forall|i: int, c: int| 0 <= i < rows.len() && 0 <= c < ps.len() ==> (#[trigger] tab@[i]@[c])@ == rows[i][c]
            }
        },
{
    let ghost ns = circuit.nodes@;
    let ghost ps = circuit.ports@;
    let ghost v0 = circuit.vals();
    let mut total: usize = 0;
    let mut k: usize = 0;
    while k < circuit.ports.len()
        invariant
            k <= ps.len(),
            circuit.ports@ == ps,
            total == input_width(ps, k as int),
            input_width(ps, ps.len() as int) < 32,
        decreases ps.len() - k,
    {
        proof {
            lemma_input_width_monotone(ps, k as int + 1, ps.len() as int);
        }
        if circuit.ports[k].direction == PortDirection::In {
            total = total + circuit.ports[k].width;
        }
        k = k + 1;
    }
    if total > 10 {
        proof {
            reveal_strlit("Too many rows in truth table to display (max 32).");
        }
        return Err(N2VError { msg: String::from_str("Too many rows in truth table to display (max 32)."), kind: ErrorKind::Other });
    }
    let mut rows: usize = 1;
    let mut b: usize = 0;
    while b < total
        invariant
            b <= total <= 10,
            rows == row_count(b as nat),
        decreases total - b,
    {
        proof {
            lemma_row_count_monotone((b + 1) as nat, 10);
            reveal_with_fuel(row_count, 11);
        }
        rows = rows * 2;
        b = b + 1;
    }
    let mut cols: Vec<String> = Vec::new();
    let mut k: usize = 0;
    while k < circuit.ports.len()
        invariant
            k <= ps.len(),
            circuit.ports@ == ps,
            cols@.len() == k,
            forall|c: int| 0 <= c < k ==> #[trigger] cols@[c]@ == ps[c].name.value@,
        decreases ps.len() - k,
    {
        cols.push(circuit.ports[k].name.value.clone());
        k = k + 1;
    }
    let mut tab: Vec<Vec<Vec<Option<bool>>>> = Vec::new();
    let mut i: usize = 0;
    while i < rows
        invariant
            i <= rows,
            rows == row_count(total as nat),
            total == input_width(ps, ps.len() as int),
            circuit.nodes@ == ns,
            circuit.ports@ == ps,
            circuit_wf(ns, circuit.vals()),
            ports_wf(ps, circuit.vals()),
            circuit.vals() == table_fold(ns, ps, v0, i as nat).0,
            tab@.len() == i,
            forall|q: int| 0 <= q < i ==> (#[trigger] tab@[q])@.len() == ps.len(),
            forall|q: int, c: int| 0 <= q < i && 0 <= c < ps.len() ==> (#[trigger] tab@[q]@[c])@ == table_fold(ns, ps, v0, i as nat).1[q][c],
        decreases rows - i,
    {
        let ghost cur = circuit.vals()[0];
        proof {
            assert forall|q: int| 0 <= q < ps.len() implies #[trigger] cur.contains_key(ps[q].name.value@) && cur[ps[q].name.value@].len()
                == ps[q].width by {
                assert(circuit.vals()[0].contains_key(ps[q].name.value@));
            }
        }
        let inputs = row_bus_map(&circuit.ports, i, total, Ghost(cur));
        let out = match circuit.compute(&inputs) {
            Ok(o) => o,
            Err(e) => return Err(e),
        };
        let ghost fold = table_fold(ns, ps, v0, (i + 1) as nat);
        proof {
            lemma_table_fold_len(ns, ps, v0, i as nat);
            assert(inputs.view() == row_inputs(ps, i as nat, ps.len() as int));
            assert(circuit.vals() == fold.0);
            assert(fold.1 == table_fold(ns, ps, v0, i as nat).1.push(table_row(ps, out.view())));
        }
        let mut row: Vec<Vec<Option<bool>>> = Vec::new();
        let mut c: usize = 0;
        while c < circuit.ports.len()
            invariant
                c <= ps.len(),
                circuit.ports@ == ps,
                out.view() == port_values(ps, circuit.vals()[0], ps.len() as int),
                fold.1.len() == i + 1,
                fold.1[i as int] == table_row(ps, out.view()),
                row@.len() == c,
                forall|q: int| 0 <= q < c ==> (#[trigger] row@[q])@ == fold.1[i as int][q],
            decreases ps.len() - c,
        {
            proof {
                lemma_port_values_names(ps, circuit.vals()[0], ps.len() as int);
                assert(out.view().contains_key(ps[c as int].name.value@));
            }
            row.push(out.get_name(circuit.ports[c].name.value.as_str()));
            c = c + 1;
        }
        let ghost tab0 = tab@;
        tab.push(row);
        proof {
            assert forall|q: int, c: int| 0 <= q < i + 1 && 0 <= c < ps.len() implies (#[trigger] tab@[q]@[c])@ == fold.1[q][c] by {
                if q < i {
                    assert(tab@[q] == tab0[q]);
                }
            }
        }
        i = i + 1;
    }
    proof {
        lemma_table_fold_len(ns, ps, v0, i as nat);
    }
    Ok((cols, tab))
}

} // verus!
