//! Finds which chips are sequential: a chip is sequential where it is a DFF
//! or where one of its parts is sequential.
use crate::error::N2VError;
use crate::keys::key_eq;
use crate::opt::optimization::{OptimizationInfo, OptimizationPass};
use crate::parser::{
    ChipHDL, Component, ComponentView, Part, PartView, chip_index_from, chip_named, get_hdl, lemma_chip_index_from,
    missing_chip, missing_chip_msg, parts_view, components_view,
};
use crate::strmap::StrMap;
use vstd::prelude::*;

verus! {

/// The parts of a chip that are components or loops, in order (assignments
/// left out): the parts through which it depends on other chips.
pub open spec fn direct_parts(parts: Seq<PartView>) -> Seq<PartView>
    decreases parts.len(),
{
    if parts.len() == 0 {
        Seq::empty()
    } else {
        let prev = direct_parts(parts.drop_last());
        match parts.last() {
            PartView::AssignmentHDL(_) => prev,
            p => prev.push(p),
        }
    }
}

/// Whether the chip named `name` stands before index `j` of the library or
/// is missing from it.
pub open spec fn before_or_missing(lib: Seq<ChipHDL>, name: Seq<char>, j: int) -> bool {
    rank(lib, name) < j || rank(lib, name) == lib.len()
}

/// Every chip that the dependency `p` uses stands before index `j` of the
/// library, or is missing from it (which the passes report).
pub open spec fn dep_ranked(lib: Seq<ChipHDL>, p: PartView, j: int) -> bool {
    match p {
        PartView::Component(c) => before_or_missing(lib, c.name.value@, j),
        PartView::Loop(l) => forall|q: int| 0 <= q < l.body.len() ==> before_or_missing(lib, (#[trigger] l.body[q]).name.value@, j),
        PartView::AssignmentHDL(_) => true,
    }
}

/// The direct dependencies of the chip at index `j` of the library.
pub open spec fn deps_of(lib: Seq<ChipHDL>, j: int) -> Seq<PartView> {
    direct_parts(parts_view(lib[j].parts@))
}

/// Where the chip named `name` stands in the library, or the library's
/// length where it is missing.
pub open spec fn rank(lib: Seq<ChipHDL>, name: Seq<char>) -> int {
    match chip_index_from(lib, name, 0) {
        Some(i) => i,
        None => lib.len() as int,
    }
}

/// Each chip of the library depends only on chips found before it or on
/// chips missing from it, so that following dependencies ends.
pub open spec fn library_ordered(lib: Seq<ChipHDL>) -> bool {
    forall|j: int, k: int| 0 <= j < lib.len() && 0 <= k < deps_of(lib, j).len() ==> dep_ranked(lib, #[trigger] deps_of(lib, j)[k], j)
}

/// Whether a chip is sequential by itself: it is the DFF.
pub open spec fn is_dff(chip: ChipHDL) -> bool {
    chip.name@ == "DFF"@
}

/// The outcome of processing the first `n` direct dependencies of chip `j`
/// with the flags `m` known so far: whether one of them is sequential, and the
/// flags after them; or the name of the first chip that is missing from the
/// library. A loop stands for each component of its body.
pub open spec fn deps_outcome(lib: Seq<ChipHDL>, j: int, n: int, m: Map<Seq<char>, bool>) -> Result<(bool, Map<Seq<char>, bool>), Seq<char>>
    decreases j, n, 0int,
{
    if n <= 0 || j < 0 || j >= lib.len() || n > deps_of(lib, j).len() {
        Ok((false, m))
    } else {
        match deps_outcome(lib, j, n - 1, m) {
            Err(e) => Err(e),
            Ok((b, m1)) => match deps_of(lib, j)[n - 1] {
                PartView::Component(c) => match chip_index_from(lib, c.name.value@, 0) {
                    None => Err(c.name.value@),
                    Some(i) => if 0 <= i < j {
                        match deps_outcome(lib, i, deps_of(lib, i).len() as int, m1) {
                            Err(e) => Err(e),
                            Ok((b2, m2)) => {
                                let f = b2 || is_dff(lib[i]);
                                Ok((b || f, m2.insert(c.name.value@, f)))
                            },
                        }
                    } else {
                        Ok((b, m1))
                    },
                },
                PartView::Loop(l) => match loop_deps_outcome(lib, j, n - 1, l.body, l.body.len() as int, m1) {
                    Err(e) => Err(e),
                    Ok((f, m2)) => Ok((b || f, m2)),
                },
                _ => Ok((b, m1)),
            },
        }
    }
}

/// The outcome of processing the first `k` components of the body of a loop
/// that is dependency `d` of chip `j`.
pub open spec fn loop_deps_outcome(lib: Seq<ChipHDL>, j: int, d: int, body: Seq<ComponentView>, k: int, m: Map<Seq<char>, bool>) -> Result<
    (bool, Map<Seq<char>, bool>),
    Seq<char>,
>
    decreases j, d, k,
{
    if k <= 0 || k > body.len() || j < 0 || j >= lib.len() || d < 0 {
        Ok((false, m))
    } else {
        match loop_deps_outcome(lib, j, d, body, k - 1, m) {
            Err(e) => Err(e),
            Ok((b, m1)) => match chip_index_from(lib, body[k - 1].name.value@, 0) {
                None => Err(body[k - 1].name.value@),
                Some(i) => if 0 <= i < j {
                    match deps_outcome(lib, i, deps_of(lib, i).len() as int, m1) {
                        Err(e) => Err(e),
                        Ok((b2, m2)) => {
                            let f = b2 || is_dff(lib[i]);
                            Ok((b || f, m2.insert(body[k - 1].name.value@, f)))
                        },
                    }
                } else {
                    Ok((b, m1))
                },
            },
        }
    }
}

/// The outcome of processing a component named `name`: its chip's
/// dependencies, then its own flag, recorded under its name.
pub open spec fn component_outcome(lib: Seq<ChipHDL>, name: Seq<char>, m: Map<Seq<char>, bool>) -> Result<(bool, Map<Seq<char>, bool>), Seq<char>> {
    match chip_index_from(lib, name, 0) {
        None => Err(name),
        Some(i) => match deps_outcome(lib, i, deps_of(lib, i).len() as int, m) {
            Err(e) => Err(e),
            Ok((b, m2)) => {
                let f = b || is_dff(lib[i]);
                Ok((f, m2.insert(name, f)))
            },
        },
    }
}

/// The outcome of processing the components of a loop body, in order.
pub open spec fn body_outcome(lib: Seq<ChipHDL>, body: Seq<ComponentView>, m: Map<Seq<char>, bool>) -> Result<(bool, Map<Seq<char>, bool>), Seq<char>>
    decreases body.len(),
{
    if body.len() == 0 {
        Ok((false, m))
    } else {
        match body_outcome(lib, body.drop_last(), m) {
            Err(e) => Err(e),
            Ok((b, m1)) => match component_outcome(lib, body.last().name.value@, m1) {
                Err(e) => Err(e),
                Ok((f, m2)) => Ok((b || f, m2)),
            },
        }
    }
}

/// The outcome of processing one part of the chip under the pass.
pub open spec fn part_outcome(lib: Seq<ChipHDL>, part: PartView, m: Map<Seq<char>, bool>) -> Result<(bool, Map<Seq<char>, bool>), Seq<char>> {
    match part {
        PartView::Component(c) => component_outcome(lib, c.name.value@, m),
        PartView::Loop(l) => body_outcome(lib, l.body, m),
        PartView::AssignmentHDL(_) => Ok((false, m)),
    }
}

/// The outcome of processing the parts of the chip under the pass, in order.
pub open spec fn parts_outcome(lib: Seq<ChipHDL>, parts: Seq<PartView>, m: Map<Seq<char>, bool>) -> Result<(bool, Map<Seq<char>, bool>), Seq<char>>
    decreases parts.len(),
{
    if parts.len() == 0 {
        Ok((false, m))
    } else {
        match parts_outcome(lib, parts.drop_last(), m) {
            Err(e) => Err(e),
            Ok((b, m1)) => match part_outcome(lib, parts.last(), m1) {
                Err(e) => Err(e),
                Ok((f, m2)) => Ok((b || f, m2)),
            },
        }
    }
}

/// Marks which chips are sequential.
pub struct SequentialPass {
    sequential_flag_map: StrMap<bool>,
}

impl SequentialPass {
    /// The flags found so far, by chip name.
    pub closed spec fn flags(&self) -> Map<Seq<char>, bool> {
        self.sequential_flag_map.map()
    }

    /// A pass that has found nothing yet.
    pub fn new() -> (r: Self)
        ensures
            r.flags() == Map::<Seq<char>, bool>::empty(),
    {
        SequentialPass { sequential_flag_map: StrMap::new() }
    }

    /// Whether a chip is sequential by itself: only the DFF is.
    fn is_sequential(&self, chip: &ChipHDL) -> (r: bool)
        ensures
            r == is_dff(*chip),
    {
        proof {
            reveal_strlit("DFF");
        }
        key_eq(chip.name.as_str(), "DFF")
    }

    /// The component and loop parts of a chip: the parts through which it
    /// depends on other chips.
    fn get_all_dependencies(&self, chip: &ChipHDL) -> (r: Result<Vec<Part>, N2VError>)
        ensures
            r matches Ok(v) && parts_view(v@) == direct_parts(parts_view(chip.parts@)),
    {
        let ghost parts = parts_view(chip.parts@);
        let mut dependencies: Vec<Part> = Vec::new();
        let mut i: usize = 0;
        while i < chip.parts.len()
            invariant
                i <= chip.parts.len(),
                parts == parts_view(chip.parts@),
                parts_view(dependencies@) == direct_parts(parts.take(i as int)),
            decreases chip.parts.len() - i,
        {
            assert(parts.take(i + 1).drop_last() =~= parts.take(i as int));
            assert(parts.take(i + 1).last() == chip.parts@[i as int]@);
            match &chip.parts[i] {
                Part::AssignmentHDL(_) => {},
                part => {
                    let ghost before = parts_view(dependencies@);
                    dependencies.push(part.clone());
                    assert(parts_view(dependencies@) =~= before.push(chip.parts@[i as int]@));
                },
            }
            i = i + 1;
        }
        assert(parts.take(chip.parts.len() as int) =~= parts);
        Ok(dependencies)
    }

    /// Processes one part: a component, or each component of a loop body.
    fn traverse(&mut self, part: &Part, library: &Vec<ChipHDL>, Ghost(bound): Ghost<int>) -> (r: Result<bool, N2VError>)
        requires
            library_ordered(library@),
            dep_ranked(library@, part@, bound),
        ensures
            match part_outcome(library@, part@, old(self).flags()) {
                Ok((b, m)) => r == Ok::<bool, N2VError>(b) && final(self).flags() == m,
                Err(name) => r matches Err(e) && e.msg@ == missing_chip_msg(name) && e.kind is IOError,
            },
        decreases bound, 0int,
    {
        match part {
            Part::Loop(loop_part) => {
                let ghost body = components_view(loop_part.body@);
                let mut loop_sequential = false;
                let mut i: usize = 0;
                assert(body.take(0) =~= Seq::<ComponentView>::empty());
                while i < loop_part.body.len()
                    invariant
                        i <= loop_part.body.len(),
                        part is Loop,
                        part@ == PartView::Loop(loop_part@),
                        library_ordered(library@),
                        dep_ranked(library@, part@, bound),
                        body == components_view(loop_part.body@),
                        body_outcome(library@, body.take(i as int), old(self).flags()) == Ok::<(bool, Map<Seq<char>, bool>), Seq<char>>((loop_sequential, self.flags())),
                    decreases loop_part.body.len() - i,
                {
                    assert(body.take(i + 1).drop_last() =~= body.take(i as int));
                    assert(body.take(i + 1).last() == loop_part.body@[i as int]@);
                    proof {
                        lemma_chip_index_from(library@, loop_part.body@[i as int].name.value@, 0);
                        assert(body[i as int] == loop_part.body@[i as int]@);
                    }
                    if get_hdl(loop_part.body[i].name.value.as_str(), library).is_none() {
                        proof {
                            assert(body_outcome(library@, body.take(i + 1), old(self).flags()) is Err);
                            lemma_body_error_stays(library@, body, old(self).flags(), i as int + 1);
                        }
                        return Err(missing_chip(loop_part.body[i].name.value.as_str()));
                    }
                    proof {
                        assert(0 <= rank(library@, body[i as int].name.value@) < bound);
                    }
                    match self.process_component(&loop_part.body[i], library) {
                        Ok(f) => {
                            loop_sequential = loop_sequential || f;
                        },
                        Err(e) => {
                            proof {
                                lemma_body_error_stays(library@, body, old(self).flags(), i as int + 1);
                            }
                            return Err(e);
                        },
                    }
                    i = i + 1;
                }
                assert(body.take(loop_part.body.len() as int) =~= body);
                Ok(loop_sequential)
            },
            Part::Component(component) => {
                proof {
                    lemma_chip_index_from(library@, component.name.value@, 0);
                }
                if get_hdl(component.name.value.as_str(), library).is_none() {
                    return Err(missing_chip(component.name.value.as_str()));
                }
                assert(0 <= rank(library@, component.name.value@) < bound);
                self.process_component(component, library)
            },
            Part::AssignmentHDL(_) => Ok(false),
        }
    }

    /// Processes a component: first the chips its chip depends on, then the
    /// component itself, whose flag is recorded under its name.
    fn process_component(&mut self, component: &Component, library: &Vec<ChipHDL>) -> (r: Result<bool, N2VError>)
        requires
            library_ordered(library@),
        ensures
            match component_outcome(library@, component.name.value@, old(self).flags()) {
                Ok((b, m)) => r == Ok::<bool, N2VError>(b) && final(self).flags() == m,
                Err(name) => r matches Err(e) && e.msg@ == missing_chip_msg(name) && e.kind is IOError,
            },
        decreases rank(library@, component.name.value@), 1int,
    {
        proof {
            lemma_chip_index_from(library@, component.name.value@, 0);
        }
        let component_chip = match get_hdl(component.name.value.as_str(), library) {
            Some(c) => c,
            None => return Err(missing_chip(component.name.value.as_str())),
        };
        let ghost j = chip_index_from(library@, component.name.value@, 0).unwrap();
        let ghost deps = deps_of(library@, j);
        let dependencies = self.get_all_dependencies(component_chip).unwrap();
        let mut component_sequential = false;
        let mut k: usize = 0;
        while k < dependencies.len()
            invariant
                k <= dependencies.len(),
                library_ordered(library@),
                0 <= j < library@.len(),
                *component_chip == library@[j],
                deps == deps_of(library@, j),
                parts_view(dependencies@) == deps,
                chip_index_from(library@, component.name.value@, 0) == Some(j),
                deps_outcome(library@, j, k as int, old(self).flags()) == Ok::<(bool, Map<Seq<char>, bool>), Seq<char>>((component_sequential, self.flags())),
            decreases dependencies.len() - k,
        {
            proof {
                assert(deps[k as int] == dependencies@[k as int]@);
                assert(dep_ranked(library@, deps_of(library@, j)[k as int], j));
                match deps[k as int] {
                    PartView::Component(c) => {
                        lemma_chip_index_from(library@, c.name.value@, 0);
                    },
                    PartView::Loop(l) => {
                        lemma_loop_deps_is_body(library@, j, k as int, l.body, l.body.len() as int, self.flags());
                        assert(l.body.take(l.body.len() as int) =~= l.body);
                    },
                    _ => {},
                }
            }
            match self.traverse(&dependencies[k], library, Ghost(j)) {
                Ok(f) => {
                    component_sequential = component_sequential || f;
                },
                Err(e) => {
                    proof {
                        lemma_deps_error_stays(library@, j, old(self).flags(), k as int + 1);
                    }
                    return Err(e);
                },
            }
            k = k + 1;
        }
        component_sequential = component_sequential || self.is_sequential(component_chip);
        self.sequential_flag_map.insert(component.name.value.clone(), component_sequential);
        Ok(component_sequential)
    }
}

/// Where every component of a loop body stands before chip `j`, processing
/// the body as a dependency of `j` is processing each of its components.
proof fn lemma_loop_deps_is_body(lib: Seq<ChipHDL>, j: int, d: int, body: Seq<ComponentView>, k: int, m: Map<Seq<char>, bool>)
    requires
        0 <= j < lib.len(),
        0 <= d,
        0 <= k <= body.len(),
        forall|q: int| 0 <= q < body.len() ==> before_or_missing(lib, (#[trigger] body[q]).name.value@, j),
    ensures
        loop_deps_outcome(lib, j, d, body, k, m) == body_outcome(lib, body.take(k), m),
    decreases k,
{
    if k > 0 {
        lemma_loop_deps_is_body(lib, j, d, body, k - 1, m);
        assert(body.take(k).drop_last() =~= body.take(k - 1));
        assert(body.take(k).last() == body[k - 1]);
        assert(before_or_missing(lib, body[k - 1].name.value@, j));
        lemma_chip_index_from(lib, body[k - 1].name.value@, 0);
    } else {
        assert(body.take(0) =~= Seq::<ComponentView>::empty());
    }
}

/// No chip ranks beyond the library's length.
proof fn lemma_ranks_bounded(lib: Seq<ChipHDL>, p: PartView)
    ensures
        dep_ranked(lib, p, lib.len() + 1int),
{
    match p {
        PartView::Component(c) => {
            lemma_chip_index_from(lib, c.name.value@, 0);
        },
        PartView::Loop(l) => {
            assert forall|q: int| 0 <= q < l.body.len() implies rank(lib, (#[trigger] l.body[q]).name.value@) < lib.len() + 1int by {
                lemma_chip_index_from(lib, l.body[q].name.value@, 0);
            }
        },
        _ => {},
    }
}

/// An error after the first `q` components of a body is the error of the whole body.
proof fn lemma_body_error_stays(lib: Seq<ChipHDL>, body: Seq<ComponentView>, m: Map<Seq<char>, bool>, q: int)
    requires
        0 <= q <= body.len(),
    ensures
        body_outcome(lib, body.take(q), m) matches Err(e) ==> body_outcome(lib, body, m) == Err::<(bool, Map<Seq<char>, bool>), Seq<char>>(e),
    decreases body.len() - q,
{
    if q < body.len() {
        lemma_body_error_stays(lib, body, m, q + 1);
        assert(body.take(q + 1).drop_last() =~= body.take(q));
    } else {
        assert(body.take(q) =~= body);
    }
}

/// An error after the first `q` dependencies is the error of all of them.
proof fn lemma_deps_error_stays(lib: Seq<ChipHDL>, j: int, m: Map<Seq<char>, bool>, q: int)
    requires
        0 <= j < lib.len(),
        0 <= q <= deps_of(lib, j).len(),
    ensures
        deps_outcome(lib, j, q, m) matches Err(e) ==> deps_outcome(lib, j, deps_of(lib, j).len() as int, m) == Err::<(bool, Map<Seq<char>, bool>), Seq<char>>(e),
    decreases deps_of(lib, j).len() - q,
{
    if q < deps_of(lib, j).len() {
        lemma_deps_error_stays(lib, j, m, q + 1);
    }
}

/// An error after the first `q` parts is the error of all the parts.
proof fn lemma_parts_error_stays(lib: Seq<ChipHDL>, parts: Seq<PartView>, m: Map<Seq<char>, bool>, q: int)
    requires
        0 <= q <= parts.len(),
    ensures
        parts_outcome(lib, parts.take(q), m) matches Err(e) ==> parts_outcome(lib, parts, m) == Err::<(bool, Map<Seq<char>, bool>), Seq<char>>(e),
    decreases parts.len() - q,
{
    if q < parts.len() {
        lemma_parts_error_stays(lib, parts, m, q + 1);
        assert(parts.take(q + 1).drop_last() =~= parts.take(q));
    } else {
        assert(parts.take(q) =~= parts);
    }
}

impl OptimizationPass for SequentialPass {
    open spec fn can_apply(&self, chip: ChipHDL, library: Seq<ChipHDL>) -> bool {
        library_ordered(library)
    }

    /// Finds the flags of the chip and of every chip it uses: the chip itself
    /// is sequential where one of its parts is. Returns the chip unchanged and
    /// the flags. `Err` where a chip that is used is missing from the library.
    fn apply(&mut self, chip: &ChipHDL, library: &Vec<ChipHDL>) -> (r: Result<(ChipHDL, OptimizationInfo), N2VError>)
        ensures
            match parts_outcome(library@, parts_view(chip.parts@), old(self).flags()) {
                Ok((b, m)) => {
                    &&& final(self).flags() == m.insert(chip.name@, b)
                    &&& r matches Ok((c, info)) && c@ == chip@ && (info matches OptimizationInfo::SequentialFlagMap(fm) && fm.map() == m.insert(chip.name@, b))
                },
                Err(name) => r matches Err(e) && e.msg@ == missing_chip_msg(name) && e.kind is IOError,
            },
    {
        let ghost parts = parts_view(chip.parts@);
        let mut chip_sequential = false;
        let mut i: usize = 0;
        assert(parts.take(0) =~= Seq::<PartView>::empty());
        while i < chip.parts.len()
            invariant
                i <= chip.parts.len(),
                library_ordered(library@),
                parts == parts_view(chip.parts@),
                parts_outcome(library@, parts.take(i as int), old(self).flags()) == Ok::<(bool, Map<Seq<char>, bool>), Seq<char>>((chip_sequential, self.flags())),
            decreases chip.parts.len() - i,
        {
            assert(parts.take(i + 1).drop_last() =~= parts.take(i as int));
            assert(parts.take(i + 1).last() == chip.parts@[i as int]@);
            proof {
                lemma_ranks_bounded(library@, chip.parts@[i as int]@);
            }
            match self.traverse(&chip.parts[i], library, Ghost(library@.len() + 1int)) {
                Ok(f) => {
                    chip_sequential = chip_sequential || f;
                },
                Err(e) => {
                    proof {
                        lemma_parts_error_stays(library@, parts, old(self).flags(), i as int + 1);
                    }
                    return Err(e);
                },
            }
            i = i + 1;
        }
        assert(parts.take(chip.parts.len() as int) =~= parts);
        self.sequential_flag_map.insert(chip.name.clone(), chip_sequential);
        let flags = self.sequential_flag_map.copy();
        Ok((chip.clone(), OptimizationInfo::SequentialFlagMap(flags)))
    }
}

/// A part holds a DFF: it is a DFF component, or a loop with a DFF in its
/// body.
pub open spec fn holds_dff(p: PartView) -> bool {
    match p {
        PartView::Component(c) => c.name.value@ == "DFF"@,
        PartView::Loop(l) => exists|q: int| 0 <= q < l.body.len() && (#[trigger] l.body[q]).name.value@ == "DFF"@,
        PartView::AssignmentHDL(_) => false,
    }
}

/// A loop body with a DFF among its first `k` components is sequential.
proof fn lemma_body_dff(lib: Seq<ChipHDL>, body: Seq<ComponentView>, m: Map<Seq<char>, bool>, q: int)
    requires
        0 <= q < body.len(),
        body[q].name.value@ == "DFF"@,
        body_outcome(lib, body, m) is Ok,
    ensures
        body_outcome(lib, body, m)->Ok_0.0,
    decreases body.len(),
{
    match body_outcome(lib, body.drop_last(), m) {
        Err(_) => {},
        Ok((b, m1)) => {
            if q < body.len() - 1 {
                assert(body.drop_last()[q] == body[q]);
                lemma_body_dff(lib, body.drop_last(), m, q);
            } else {
                lemma_chip_index_from(lib, body[q].name.value@, 0);
            }
        },
    }
}

/// The body of a loop that is a dependency of chip `j`, with a DFF among its
/// first `k` components, is sequential.
proof fn lemma_loop_deps_dff(lib: Seq<ChipHDL>, j: int, d: int, body: Seq<ComponentView>, k: int, m: Map<Seq<char>, bool>, q: int)
    requires
        0 <= j < lib.len(),
        0 <= d,
        0 <= q < k <= body.len(),
        forall|p: int| 0 <= p < body.len() ==> before_or_missing(lib, (#[trigger] body[p]).name.value@, j),
        body[q].name.value@ == "DFF"@,
        loop_deps_outcome(lib, j, d, body, k, m) is Ok,
    ensures
        loop_deps_outcome(lib, j, d, body, k, m)->Ok_0.0,
    decreases k,
{
    match loop_deps_outcome(lib, j, d, body, k - 1, m) {
        Err(_) => {},
        Ok((b, m1)) => {
            assert(before_or_missing(lib, body[k - 1].name.value@, j));
            lemma_chip_index_from(lib, body[k - 1].name.value@, 0);
            if q < k - 1 {
                lemma_loop_deps_dff(lib, j, d, body, k - 1, m, q);
            }
        },
    }
}

/// The dependencies of chip `j`, one of the first `n` of which holds a DFF,
/// are sequential.
proof fn lemma_deps_dff(lib: Seq<ChipHDL>, j: int, n: int, m: Map<Seq<char>, bool>, k: int)
    requires
        library_ordered(lib),
        0 <= j < lib.len(),
        0 <= k < n <= deps_of(lib, j).len(),
        holds_dff(deps_of(lib, j)[k]),
        deps_outcome(lib, j, n, m) is Ok,
    ensures
        deps_outcome(lib, j, n, m)->Ok_0.0,
    decreases n,
{
    match deps_outcome(lib, j, n - 1, m) {
        Err(_) => {},
        Ok((b, m1)) => {
            if k < n - 1 {
                lemma_deps_dff(lib, j, n - 1, m, k);
            } else {
                assert(dep_ranked(lib, deps_of(lib, j)[k], j));
                match deps_of(lib, j)[k] {
                    PartView::Component(c) => {
                        lemma_chip_index_from(lib, c.name.value@, 0);
                    },
                    PartView::Loop(l) => {
                        let q = choose|q: int| 0 <= q < l.body.len() && (#[trigger] l.body[q]).name.value@ == "DFF"@;
                        lemma_loop_deps_dff(lib, j, k, l.body, l.body.len() as int, m1, q);
                    },
                    _ => {},
                }
            }
        },
    }
}

/// A chip used as a component is sequential where one of its parts holds a
/// DFF, directly or in the body of a loop: where processing the component
/// succeeds, it is flagged sequential.
pub proof fn lemma_component_with_dff_is_sequential(lib: Seq<ChipHDL>, name: Seq<char>, m: Map<Seq<char>, bool>, k: int)
    requires
        library_ordered(lib),
        chip_index_from(lib, name, 0) is Some,
        0 <= k < parts_view(lib[chip_index_from(lib, name, 0)->Some_0].parts@).len(),
        holds_dff(parts_view(lib[chip_index_from(lib, name, 0)->Some_0].parts@)[k]),
        component_outcome(lib, name, m) is Ok,
    ensures
        component_outcome(lib, name, m)->Ok_0.0,
        component_outcome(lib, name, m)->Ok_0.1[name],
{
    let i = chip_index_from(lib, name, 0)->Some_0;
    lemma_chip_index_from(lib, name, 0);
    let parts = parts_view(lib[i].parts@);
    let kk = lemma_direct_parts_keep(parts, k);
    lemma_deps_dff(lib, i, deps_of(lib, i).len() as int, m, kk);
}

/// A part that is not an assignment keeps its place among the direct parts:
/// the index it gets there.
proof fn lemma_direct_parts_keep(parts: Seq<PartView>, k: int) -> (kk: int)
    requires
        0 <= k < parts.len(),
        !(parts[k] is AssignmentHDL),
    ensures
        0 <= kk < direct_parts(parts).len(),
        direct_parts(parts)[kk] == parts[k],
    decreases parts.len(),
{
    if k < parts.len() - 1 {
        assert(parts.drop_last()[k] == parts[k]);
        let kk = lemma_direct_parts_keep(parts.drop_last(), k);
        kk
    } else {
        (direct_parts(parts.drop_last()).len()) as int
    }
}

/// A chip with a DFF among its parts, directly or in the body of a loop, is
/// sequential: where the pass over its parts succeeds, it finds the chip
/// sequential.
pub proof fn lemma_dff_part_is_sequential(lib: Seq<ChipHDL>, parts: Seq<PartView>, m: Map<Seq<char>, bool>, k: int)
    requires
        0 <= k < parts.len(),
        holds_dff(parts[k]),
        parts_outcome(lib, parts, m) is Ok,
    ensures
        parts_outcome(lib, parts, m)->Ok_0.0,
    decreases parts.len(),
{
    let last = parts.len() - 1;
    match parts_outcome(lib, parts.drop_last(), m) {
        Err(_) => {},
        Ok((b, m1)) => {
            if k < last {
                assert(parts.drop_last()[k] == parts[k]);
                lemma_dff_part_is_sequential(lib, parts.drop_last(), m, k);
            } else {
                assert(parts.last() == parts[k]);
                match parts[k] {
                    PartView::Component(c) => {
                        lemma_chip_index_from(lib, c.name.value@, 0);
                    },
                    PartView::Loop(l) => {
                        let q = choose|q: int| 0 <= q < l.body.len() && (#[trigger] l.body[q]).name.value@ == "DFF"@;
                        lemma_body_dff(lib, l.body, m1, q);
                    },
                    _ => {},
                }
            }
        },
    }
}

/// The dependencies of a chip are ranked exactly where all its parts are.
proof fn lemma_direct_ranked(lib: Seq<ChipHDL>, ps: Seq<PartView>, j: int)
    ensures
        (forall|k: int| 0 <= k < direct_parts(ps).len() ==> dep_ranked(lib, #[trigger] direct_parts(ps)[k], j)) <==> (forall|i: int|
            0 <= i < ps.len() ==> dep_ranked(lib, #[trigger] ps[i], j)),
    decreases ps.len(),
{
    if ps.len() > 0 {
        let prev = ps.drop_last();
        lemma_direct_ranked(lib, prev, j);
        let d = direct_parts(ps);
        let dp = direct_parts(prev);
        if forall|i: int| 0 <= i < ps.len() ==> dep_ranked(lib, #[trigger] ps[i], j) {
            assert forall|i: int| 0 <= i < prev.len() implies dep_ranked(lib, #[trigger] prev[i], j) by {
                assert(prev[i] == ps[i]);
            }
            assert forall|k: int| 0 <= k < d.len() implies dep_ranked(lib, #[trigger] d[k], j) by {
                if k < dp.len() {
                    assert(d[k] == dp[k]);
                } else {
                    assert(d[k] == ps.last());
                    assert(ps[ps.len() - 1] == ps.last());
                }
            }
        }
        if forall|k: int| 0 <= k < d.len() ==> dep_ranked(lib, #[trigger] d[k], j) {
            assert forall|k: int| 0 <= k < dp.len() implies dep_ranked(lib, #[trigger] dp[k], j) by {
                assert(d[k] == dp[k]);
            }
            assert forall|i: int| 0 <= i < ps.len() implies dep_ranked(lib, #[trigger] ps[i], j) by {
                if i < prev.len() {
                    assert(prev[i] == ps[i]);
                } else {
                    assert(ps[i] == ps.last());
                    if !(ps.last() is AssignmentHDL) {
                        assert(d[dp.len() as int] == ps.last());
                    }
                }
            }
        }
    }
}

/// The position of the first chip named `name`.
fn chip_position(library: &Vec<ChipHDL>, name: &str) -> (r: Option<usize>)
    ensures
        match r {
            Some(i) => chip_index_from(library@, name@, 0) == Some(i as int),
            None => chip_index_from(library@, name@, 0) is None,
        },
{
    let mut i: usize = 0;
    while i < library.len()
        invariant
            i <= library.len(),
            chip_index_from(library@, name@, 0) == chip_index_from(library@, name@, i as int),
        decreases library.len() - i,
    {
        if key_eq(library[i].name.as_str(), name) {
            return Some(i);
        }
        i = i + 1;
    }
    None
}

/// Whether the chip named `name` stands before `j` or is missing.
fn before_or_missing_exec(library: &Vec<ChipHDL>, name: &str, j: usize) -> (r: bool)
    ensures
        r == before_or_missing(library@, name@, j as int),
{
    proof {
        lemma_chip_index_from(library@, name@, 0);
    }
    match chip_position(library, name) {
        Some(i) => {
            assert(rank(library@, name@) == i);
            i < j
        },
        None => {
            assert(rank(library@, name@) == library@.len());
            true
        },
    }
}

/// Whether one part of chip `j` uses only chips before `j` or missing ones.
fn part_ranked(library: &Vec<ChipHDL>, p: &Part, j: usize) -> (r: bool)
    ensures
        r == dep_ranked(library@, p@, j as int),
{
    match p {
        Part::Component(c) => before_or_missing_exec(library, c.name.value.as_str(), j),
        Part::Loop(l) => {
            assert(p@ == PartView::Loop(l@));
            let mut q: usize = 0;
            while q < l.body.len()
                invariant
                    q <= l.body.len(),
                    p@ == PartView::Loop(l@),
                    forall|x: int| 0 <= x < q ==> before_or_missing(library@, (#[trigger] l@.body[x]).name.value@, j as int),
                decreases l.body.len() - q,
            {
                assert(l@.body[q as int] == l.body@[q as int]@);
                if !before_or_missing_exec(library, l.body[q].name.value.as_str(), j) {
                    assert(!before_or_missing(library@, l@.body[q as int].name.value@, j as int));
                    return false;
                }
                q = q + 1;
            }
            true
        },
        Part::AssignmentHDL(_) => true,
    }
}

/// Whether the library lists every chip after the chips it uses (chips it
/// uses that are missing from it are reported by the passes, and count as
/// in order), as the sequential pass, `quartus_tcl` and the testbench
/// generator need.
pub fn library_is_ordered(library: &Vec<ChipHDL>) -> (r: bool)
    ensures
        r == library_ordered(library@),
{
    let mut j: usize = 0;
    while j < library.len()
        invariant
            j <= library.len(),
            forall|jj: int, k: int| 0 <= jj < j && 0 <= k < deps_of(library@, jj).len() ==> dep_ranked(library@, #[trigger] deps_of(library@, jj)[k], jj),
        decreases library.len() - j,
    {
        let parts = &library[j].parts;
        let ghost ps = parts_view(parts@);
        let mut i: usize = 0;
        while i < parts.len()
            invariant
                i <= parts.len(),
                j < library.len(),
                parts@ == library@[j as int].parts@,
                ps == parts_view(parts@),
                forall|x: int| 0 <= x < i ==> dep_ranked(library@, #[trigger] ps[x], j as int),
            decreases parts.len() - i,
        {
            assert(ps[i as int] == parts@[i as int]@);
            if !part_ranked(library, &parts[i], j) {
                proof {
                    assert(ps[i as int] == parts@[i as int]@);
                    assert(!dep_ranked(library@, ps[i as int], j as int));
                    lemma_direct_ranked(library@, ps, j as int);
                    assert(deps_of(library@, j as int) == direct_parts(ps));
                }
                return false;
            }
            i = i + 1;
        }
        proof {
            lemma_direct_ranked(library@, ps, j as int);
            assert(deps_of(library@, j as int) == direct_parts(ps));
        }
        j = j + 1;
    }
    true
}

} // verus!