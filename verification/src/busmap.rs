//! Signal values of a chip: each named bus holds a fixed number of bits, each
//! known (`Some`) or unknown (`None`). Bus indices count from the right: bit 0
//! is the last element of the stored vector.
use crate::fmt::{decimal, push_char, push_decimal, push_str};
use crate::simulator::Bus;
use crate::strmap::StrMap;
use vstd::prelude::*;

verus! {

/// The bits of every created bus, by name.
pub struct BusMap {
    buses: StrMap<Vec<Option<bool>>>,
}

/// The bit indices `[start, end)` that a bus refers to in a bus of `width`
/// bits: its own range, or the whole bus where it has none.
pub open spec fn bus_bounds(range: Option<std::ops::Range<usize>>, width: nat) -> (int, int) {
    match range {
        Some(r) => (r.start as int, r.end as int),
        None => (0, width as int),
    }
}

/// The values that a read of bits `[start, end)` returns: bit `i` is stored at
/// position `width - 1 - i`, so the read is a slice taken from the right, with
/// the highest bit first.
pub open spec fn read_bits(current: Seq<Option<bool>>, start: int, end: int) -> Seq<Option<bool>> {
    if start >= end {
        Seq::empty()
    } else {
        current.subrange(current.len() - end, current.len() - start)
    }
}

/// The bus after writing `values` to bits `[start, end)`.
pub open spec fn write_bits(current: Seq<Option<bool>>, start: int, end: int, values: Seq<Option<bool>>) -> Seq<Option<bool>> {
    if start >= end {
        current
    } else {
        current.subrange(0, current.len() - end) + values + current.subrange(
            current.len() - start,
            current.len() as int,
        )
    }
}

/// The number of bits in `[start, end)`, zero where `end` does not exceed `start`.
pub open spec fn span(start: int, end: int) -> int {
    if end > start {
        end - start
    } else {
        0
    }
}

/// The text of each string.
pub open spec fn string_views(v: Seq<String>) -> Seq<Seq<char>> {
    v.map_values(|s: String| s@)
}

/// Known bits.
pub open spec fn known(values: Seq<bool>) -> Seq<Option<bool>> {
    values.map_values(|b: bool| Some(b))
}

/// The message of a failed `create_bus`.
pub open spec fn width_mismatch_text(name: Seq<char>, current: nat, asked: nat) -> Seq<char> {
    "Inconsistent width for signal "@ + name + ". Current width: "@ + decimal(current)
        + ", asked for: "@ + decimal(asked)
}

fn copy_bits(v: &Vec<Option<bool>>) -> (r: Vec<Option<bool>>)
    ensures
        r@ == v@,
{
    let mut r: Vec<Option<bool>> = Vec::new();
    let mut i: usize = 0;
    while i < v.len()
        invariant
            i <= v.len(),
            r@ == v@.subrange(0, i as int),
        decreases v.len() - i,
    {
        r.push(v[i]);
        assert(r@ =~= v@.subrange(0, i + 1));
        i = i + 1;
    }
    assert(r@ =~= v@);
    r
}

impl BusMap {
    /// The bits of each bus, by name.
    pub closed spec fn view(&self) -> Map<Seq<char>, Seq<Option<bool>>> {
        self.buses.map().map_values(|v: Vec<Option<bool>>| v@)
    }

    /// The bus names in ascending order.
    pub closed spec fn names(&self) -> Seq<Seq<char>> {
        self.buses.keys()
    }

    /// A map with no buses.
    pub fn new() -> (r: BusMap)
        ensures
            r.view() == Map::<Seq<char>, Seq<Option<bool>>>::empty(),
    {
        let r = BusMap { buses: StrMap::new() };
        assert(r.view() =~= Map::<Seq<char>, Seq<Option<bool>>>::empty());
        r
    }

    /// Reads the bits that `bus` refers to, highest bit first.
    pub fn get_bus(&self, bus: &Bus) -> (r: Vec<Option<bool>>)
        requires
            self.view().contains_key(bus.name@),
            bus_bounds(bus.range, self.view()[bus.name@].len()).1 <= self.view()[bus.name@].len(),
        ensures
            r@ == read_bits(
                self.view()[bus.name@],
                bus_bounds(bus.range, self.view()[bus.name@].len()).0,
                bus_bounds(bus.range, self.view()[bus.name@].len()).1,
            ),
    {
        let current = self.buses.get(bus.name.as_str()).unwrap();
        let width = current.len();
        let (start, end) = match &bus.range {
            None => (0, width),
            Some(r) => (r.start, r.end),
        };
        let mut res: Vec<Option<bool>> = Vec::new();
        if start < end {
            let mut k: usize = width - end;
            while k < width - start
                invariant
                    width == current@.len(),
                    start < end <= width,
                    width - end <= k <= width - start,
                    res@ == current@.subrange(width - end, k as int),
                decreases width - start - k,
            {
                res.push(current[k]);
                assert(current@.subrange(width - end, k + 1) =~= current@.subrange(width - end, k as int).push(current@[k as int]));
                k = k + 1;
            }
        }
        assert(res@ =~= read_bits(current@, start as int, end as int));
        res
    }

    /// All bits of the bus named `name`.
    pub fn get_name(&self, name: &str) -> (r: Vec<Option<bool>>)
        requires
            self.view().contains_key(name@),
        ensures
            r@ == self.view()[name@],
    {
        copy_bits(self.buses.get(name).unwrap())
    }

    /// Writes known bits to the bits that `bus` refers to.
    pub fn insert(&mut self, bus: Bus, values: Vec<bool>)
        requires
            old(self).view().contains_key(bus.name@),
            bus.range is Some ==> span(bus.range.unwrap().start as int, bus.range.unwrap().end as int) == values.len(),
            bus_bounds(bus.range, values.len() as nat).1 <= old(self).view()[bus.name@].len(),
        ensures
            final(self).view() == old(self).view().insert(
                bus.name@,
                write_bits(
                    old(self).view()[bus.name@],
                    bus_bounds(bus.range, values.len() as nat).0,
                    bus_bounds(bus.range, values.len() as nat).1,
                    known(values@),
                ),
            ),
    {
        let mut x: Vec<Option<bool>> = Vec::new();
        let mut i: usize = 0;
        while i < values.len()
            invariant
                i <= values.len(),
                x@ == known(values@.subrange(0, i as int)),
            decreases values.len() - i,
        {
            x.push(Some(values[i]));
            assert(known(values@.subrange(0, i + 1)) =~= known(values@.subrange(0, i as int)).push(Some(values@[i as int])));
            i = i + 1;
        }
        assert(values@.subrange(0, values.len() as int) =~= values@);
        self.insert_option(&bus, x);
    }

    /// Creates a bus of `width` unknown bits, or checks that an existing bus has
    /// that width. A bus must be created before it can be used.
    pub fn create_bus(&mut self, name: &str, width: usize) -> (r: Result<(), String>)
        ensures
            match r {
                Ok(()) => {
                    &&& !old(self).view().contains_key(name@) ==> final(self).view() == old(self).view().insert(
                        name@,
                        Seq::new(width as nat, |i: int| None::<bool>),
                    )
                    &&& old(self).view().contains_key(name@) ==> final(self).view() == old(self).view()
                },
                Err(msg) => {
                    &&& final(self).view() == old(self).view()
                    &&& msg@ == width_mismatch_text(name@, old(self).view()[name@].len(), width as nat)
                },
            },
            r is Err <==> (old(self).view().contains_key(name@) && old(self).view()[name@].len() != width),
    {
        proof {
            use_type_invariant(&self.buses);
            self.buses.lemma_layout();
        }
        match self.buses.get(name) {
            None => {
                let mut v: Vec<Option<bool>> = Vec::new();
                let mut i: usize = 0;
                while i < width
                    invariant
                        i <= width,
                        v@ == Seq::new(i as nat, |j: int| None::<bool>),
                    decreases width - i,
                {
                    v.push(None);
                    assert(v@ =~= Seq::new((i + 1) as nat, |j: int| None::<bool>));
                    i = i + 1;
                }
                let ghost old_map = self.buses.map();
                self.buses.insert(String::from_str(name), v);
                proof {
                    assert(self.view() =~= old(self).view().insert(name@, Seq::new(width as nat, |i: int| None::<bool>)));
                }
                Ok(())
            },
            Some(current) => {
                if current.len() != width {
                    let mut msg = String::new();
                    push_str(&mut msg, "Inconsistent width for signal ");
                    push_str(&mut msg, name);
                    push_str(&mut msg, ". Current width: ");
                    push_decimal(&mut msg, current.len());
                    push_str(&mut msg, ", asked for: ");
                    push_decimal(&mut msg, width);
                    assert(msg@ =~= width_mismatch_text(name@, old(self).view()[name@].len(), width as nat));
                    return Err(msg);
                }
                Ok(())
            },
        }
    }

    /// Writes bits, known or not, to the bits that `bus` refers to; a bus with no
    /// range writes `values` to its lowest bits. Other bits and buses are unchanged.
    pub fn insert_option(&mut self, bus: &Bus, values: Vec<Option<bool>>)
        requires
            old(self).view().contains_key(bus.name@),
            bus.range is Some ==> span(bus.range.unwrap().start as int, bus.range.unwrap().end as int) == values.len(),
            bus_bounds(bus.range, values.len() as nat).1 <= old(self).view()[bus.name@].len(),
        ensures
            final(self).view() == old(self).view().insert(
                bus.name@,
                write_bits(
                    old(self).view()[bus.name@],
                    bus_bounds(bus.range, values.len() as nat).0,
                    bus_bounds(bus.range, values.len() as nat).1,
                    values@,
                ),
            ),
    {
        let current = self.buses.get(bus.name.as_str()).unwrap();
        let width = current.len();
        let (start, end) = match &bus.range {
            None => (0, values.len()),
            Some(r) => (r.start, r.end),
        };
        let mut updated: Vec<Option<bool>> = Vec::new();
        let mut k: usize = 0;
        while k < width
            invariant
                width == current@.len(),
                end <= width,
                start < end ==> end - start == values@.len(),
                k <= width,
                updated@ == write_bits(current@, start as int, end as int, values@).subrange(0, k as int),
                write_bits(current@, start as int, end as int, values@).len() == width,
            decreases width - k,
        {
            let ghost w = write_bits(current@, start as int, end as int, values@);
            if start < end && width - end <= k && k < width - start {
                updated.push(values[k - (width - end)]);
            } else {
                updated.push(current[k]);
            }
            assert(updated@ =~= w.subrange(0, k + 1));
            k = k + 1;
        }
        assert(updated@ =~= write_bits(current@, start as int, end as int, values@));
        self.buses.insert(bus.name.clone(), updated);
        assert(self.view() =~= old(self).view().insert(bus.name@, write_bits(current@, start as int, end as int, values@)));
    }

    /// The width of the bus named `name`, if it exists.
    pub fn get_width(&self, name: &str) -> (r: Option<usize>)
        ensures
            match r {
                Some(w) => self.view().contains_key(name@) && w == self.view()[name@].len(),
                None => !self.view().contains_key(name@),
            },
    {
        match self.buses.get(name) {
            Some(x) => Some(x.len()),
            None => None,
        }
    }

    /// The bus names, in ascending order.
    pub fn signals(&self) -> (r: Vec<String>)
        ensures
            string_views(r@) == self.names(),
            forall|i: int, j: int|
                0 <= i < j < r@.len() ==> crate::keys::key_lt(#[trigger] r@[i]@, #[trigger] r@[j]@),
            forall|k: Seq<char>| #[trigger] self.view().contains_key(k) <==> self.names().contains(k),
    {
        proof {
            use_type_invariant(&self.buses);
            self.buses.lemma_layout();
        }
        let mut r: Vec<String> = Vec::new();
        let n = self.buses.len();
        let mut i: usize = 0;
        while i < n
            invariant
                n == self.buses.keys().len(),
                i <= n,
                r@.len() == i,
                forall|j: int| 0 <= j < i ==> #[trigger] r@[j]@ == self.buses.keys()[j],
            decreases n - i,
        {
            let k = self.buses.key_at(i).clone();
            r.push(k);
            i = i + 1;
        }
        assert(string_views(r@) =~= self.buses.keys());
        assert forall|i: int, j: int| 0 <= i < j < r@.len() implies crate::keys::key_lt(#[trigger] r@[i]@, #[trigger] r@[j]@) by {
            assert(r@[i]@ == self.buses.keys()[i]);
            assert(r@[j]@ == self.buses.keys()[j]);
        }
        r
    }
}

/// A read of the bits just written gives back what was written: after
/// `insert_option(bus, values)`, `get_bus(bus)` returns `values`, where the bus
/// has a non-empty range, or has none and `values` covers the whole bus.
pub proof fn lemma_read_after_write(current: Seq<Option<bool>>, range: Option<std::ops::Range<usize>>, values: Seq<Option<bool>>)
    requires
        range is Some ==> span(range.unwrap().start as int, range.unwrap().end as int) == values.len(),
        range is Some ==> range.unwrap().start < range.unwrap().end,
        range is None ==> values.len() == current.len(),
        bus_bounds(range, values.len()).1 <= current.len(),
    ensures
        ({
            let (s, e) = bus_bounds(range, values.len());
            let written = write_bits(current, s, e, values);
            read_bits(written, bus_bounds(range, written.len()).0, bus_bounds(range, written.len()).1) == values
        }),
{
    let (s, e) = bus_bounds(range, values.len());
    let written = write_bits(current, s, e, values);
    if s < e {
        assert(written.len() == current.len());
        assert(read_bits(written, s, e) =~= values);
    } else {
        assert(values.len() == 0);
        assert(current.len() == 0);
        assert(read_bits(written, 0, 0) =~= values);
    }
}

/// Writing keeps the width of the bus.
pub proof fn lemma_write_keeps_width(current: Seq<Option<bool>>, start: int, end: int, values: Seq<Option<bool>>)
    requires
        0 <= start,
        end <= current.len(),
        start < end ==> end - start == values.len(),
    ensures
        write_bits(current, start, end, values).len() == current.len(),
{
}

/// Writing one range of bits leaves every bit outside it as it was.
pub proof fn lemma_write_frames_other_bits(current: Seq<Option<bool>>, start: int, end: int, values: Seq<Option<bool>>, i: int)
    requires
        0 <= start,
        end <= current.len(),
        start < end ==> end - start == values.len(),
        0 <= i < current.len(),
        !(start <= i < end),
    ensures
        read_bits(write_bits(current, start, end, values), i, i + 1) == read_bits(current, i, i + 1),
{
    let w = write_bits(current, start, end, values);
    assert(read_bits(w, i, i + 1) =~= read_bits(current, i, i + 1));
}

/// What `insert_option` (and `insert`, with known bits) does to the buses:
/// where `before` and `after` are the maps before and after the call, the
/// bits written read back as `values`, the bus keeps its width, its bits
/// outside the range written are unchanged, and so are the other buses and
/// the set of names.
pub proof fn lemma_insert_option_law(
    before: Map<Seq<char>, Seq<Option<bool>>>,
    after: Map<Seq<char>, Seq<Option<bool>>>,
    name: Seq<char>,
    range: Option<std::ops::Range<usize>>,
    values: Seq<Option<bool>>,
)
    requires
        before.contains_key(name),
        range is Some ==> span(range.unwrap().start as int, range.unwrap().end as int) == values.len(),
        bus_bounds(range, values.len()).1 <= before[name].len(),
        after == before.insert(
            name,
            write_bits(before[name], bus_bounds(range, values.len()).0, bus_bounds(range, values.len()).1, values),
        ),
    ensures
        ({
            let (s, e) = bus_bounds(range, values.len());
            let w = before[name].len() as int;
            &&& read_bits(after[name], s, e) == values
            &&& after[name].len() == w
            &&& forall|p: int| 0 <= p < w && !(w - e <= p < w - s) ==> #[trigger] after[name][p] == before[name][p]
        }),
        after.dom() == before.dom(),
        forall|n: Seq<char>| n != name ==> #[trigger] after[n] == before[n],
{
    let (s, e) = bus_bounds(range, values.len());
    let w = before[name].len() as int;
    assert(after[name] == write_bits(before[name], s, e, values));
    if s < e {
        assert(read_bits(after[name], s, e) =~= values);
    } else {
        assert(values.len() == 0);
        assert(read_bits(after[name], s, e) =~= values);
    }
    assert(after.dom() =~= before.dom());
}

/// Creating a bus that exists with the same width, or does not exist, gives
/// a map in which it exists with that width, every other bus unchanged; a
/// second identical call changes nothing more.
pub proof fn lemma_create_bus_law(before: Map<Seq<char>, Seq<Option<bool>>>, name: Seq<char>, width: nat)
    requires
        !(before.contains_key(name) && before[name].len() != width),
    ensures
        ({
            let after = if before.contains_key(name) {
                before
            } else {
                before.insert(name, Seq::new(width, |i: int| None::<bool>))
            };
            &&& after.contains_key(name)
            &&& after[name].len() == width
            &&& !before.contains_key(name) ==> forall|i: int| 0 <= i < width ==> #[trigger] after[name][i] is None
            &&& after.dom() == before.dom().insert(name)
            &&& forall|n: Seq<char>| n != name ==> #[trigger] after[n] == before[n]
            &&& !(after.contains_key(name) && after[name].len() != width)
        }),
{
    if before.contains_key(name) {
        assert(before.dom() =~= before.dom().insert(name));
    } else {
        let after = before.insert(name, Seq::new(width, |i: int| None::<bool>));
        assert(after.dom() =~= before.dom().insert(name));
    }
}

/// The buses made from `(name, bit)` pairs, each bus `width` bits wide with its
/// pair's bit as bit 0; a later pair with the same name writes that bit again.
pub open spec fn pairs_view(names: Seq<Seq<char>>, bits: Seq<bool>, width: nat) -> Map<Seq<char>, Seq<Option<bool>>>
    decreases names.len(),
{
    if names.len() == 0 || bits.len() != names.len() {
        Map::empty()
    } else {
        let prev = pairs_view(names.drop_last(), bits.drop_last(), width);
        let name = names.last();
        let cur = if prev.contains_key(name) {
            prev[name]
        } else {
            Seq::new(width, |i: int| None::<bool>)
        };
        prev.insert(name, write_bits(cur, 0, 1, seq![Some(bits.last())]))
    }
}

impl BusMap {
    /// Builds a map from `(name, bit)` pairs: each pair creates a bus as wide as
    /// there are pairs and sets its bit 0.
    pub fn try_from<const N: usize>(values: [(&str, bool); N]) -> (r: Result<BusMap, String>)
        ensures
            r is Ok,
            r.unwrap().view() == pairs_view(values@.map_values(|p: (&str, bool)| p.0@), values@.map_values(|p: (&str, bool)| p.1), N as nat),
    {
        let ghost names = values@.map_values(|p: (&str, bool)| p.0@);
        let ghost bits = values@.map_values(|p: (&str, bool)| p.1);
        let mut r = BusMap::new();
        let mut i: usize = 0;
        while i < N
            invariant
                i <= N,
                values@.len() == N,
                names == values@.map_values(|p: (&str, bool)| p.0@),
                bits == values@.map_values(|p: (&str, bool)| p.1),
                r.view() == pairs_view(names.subrange(0, i as int), bits.subrange(0, i as int), N as nat),
                forall|k: Seq<char>| #[trigger] r.view().contains_key(k) ==> r.view()[k].len() == N,
            decreases N - i,
        {
            let (name, bit) = values[i];
            let ghost prev = r.view();
            match r.create_bus(name, N) {
                Ok(()) => {},
                Err(e) => {
                    return Err(e);
                },
            }
            let mut v: Vec<bool> = Vec::new();
            v.push(bit);
            r.insert(Bus::from(name), v);
            proof {
                assert(names.subrange(0, i + 1).drop_last() =~= names.subrange(0, i as int));
                assert(bits.subrange(0, i + 1).drop_last() =~= bits.subrange(0, i as int));
                assert(names.subrange(0, i + 1).last() == name@);
                assert(bits.subrange(0, i + 1).last() == bit);
                assert(known(seq![bit]) =~= seq![Some(bit)]);
            }
            i = i + 1;
        }
        assert(names.subrange(0, N as int) =~= names);
        assert(bits.subrange(0, N as int) =~= bits);
        Ok(r)
    }
}

/// `a` holds every bus of `b`, with the same bits.
pub open spec fn covers(a: Map<Seq<char>, Seq<Option<bool>>>, b: Map<Seq<char>, Seq<Option<bool>>>) -> bool {
    forall|k: Seq<char>| #[trigger] b.contains_key(k) ==> a.contains_key(k) && a[k] == b[k]
}

/// Comparing signal maps is a partial order: every map covers itself, two
/// maps that cover each other are equal, and covering is transitive.
pub proof fn lemma_covers_partial_order(
    a: Map<Seq<char>, Seq<Option<bool>>>,
    b: Map<Seq<char>, Seq<Option<bool>>>,
    c: Map<Seq<char>, Seq<Option<bool>>>,
)
    ensures
        covers(a, a),
        covers(a, b) && covers(b, a) ==> a == b,
        covers(a, b) && covers(b, c) ==> covers(a, c),
{
    if covers(a, b) && covers(b, a) {
        assert(a =~= b);
    }
}

/// Whether two buses hold the same bits.
fn same_bits(a: &Vec<Option<bool>>, b: &Vec<Option<bool>>) -> (r: bool)
    ensures
        r == (a@ == b@),
{
    if a.len() != b.len() {
        return false;
    }
    let mut i: usize = 0;
    while i < a.len()
        invariant
            i <= a.len(),
            a.len() == b.len(),
            forall|j: int| 0 <= j < i ==> a@[j] == b@[j],
        decreases a.len() - i,
    {
        let equal = match (a[i], b[i]) {
            (None, None) => true,
            (Some(x), Some(y)) => x == y,
            _ => false,
        };
        if !equal {
            return false;
        }
        i = i + 1;
    }
    assert(a@ =~= b@);
    true
}

impl BusMap {
    /// Whether this map holds every bus of `other`, with the same bits.
    fn covers_map(&self, other: &BusMap) -> (r: bool)
        ensures
            r == covers(self.view(), other.view()),
    {
        proof {
            use_type_invariant(&other.buses);
            other.buses.lemma_layout();
        }
        let n = other.buses.len();
        let mut i: usize = 0;
        while i < n
            invariant
                n == other.buses.keys().len(),
                i <= n,
                other.buses.wf(),
                forall|k: Seq<char>| #[trigger] other.buses.map().contains_key(k) <==> other.buses.keys().contains(k),
                forall|j: int| 0 <= j < n ==> #[trigger] other.buses.map()[other.buses.keys()[j]] == other.buses.value_at_spec(j),
                forall|j: int| 0 <= j < i ==> self.view().contains_key(#[trigger] other.buses.keys()[j])
                    && self.view()[other.buses.keys()[j]] == other.view()[other.buses.keys()[j]],
            decreases n - i,
        {
            let k = other.buses.key_at(i);
            let theirs = other.buses.value_at(i);
            assert(other.buses.keys()[i as int] == k@);
            assert(other.buses.keys().contains(k@));
            assert(other.view().contains_key(k@));
            assert(other.view()[k@] == theirs@);
            match self.buses.get(k.as_str()) {
                None => {
                    assert(!self.view().contains_key(k@));
                    assert(!covers(self.view(), other.view()));
                    return false;
                },
                Some(mine) => {
                    assert(self.view()[k@] == mine@);
                    if !same_bits(mine, theirs) {
                        assert(!covers(self.view(), other.view()));
                        return false;
                    }
                },
            }
            i = i + 1;
        }
        assert forall|k: Seq<char>| #[trigger] other.view().contains_key(k) implies self.view().contains_key(k)
            && self.view()[k] == other.view()[k] by {
            assert(other.buses.keys().contains(k));
            let j = other.buses.keys().index_of(k);
            assert(other.buses.keys()[j] == k);
        }
        true
    }

    /// The map as text: a line `name: bits` for each bus in ascending order
    /// of name, with its bits in the order in which the bus stores them, each
    /// `1`, `0`, or `?` where it is unknown.
    pub fn to_string(&self) -> (r: String)
        ensures
            r@ == buses_text(self.names(), self.view()),
    {
        proof {
            use_type_invariant(&self.buses);
            self.buses.lemma_layout();
        }
        let mut s = String::new();
        let n = self.buses.len();
        let mut i: usize = 0;
        assert(self.names().take(0) =~= Seq::<Seq<char>>::empty());
        while i < n
            invariant
                n == self.buses.keys().len(),
                i <= n,
                forall|j: int| 0 <= j < n ==> #[trigger] self.buses.map()[self.buses.keys()[j]] == self.buses.value_at_spec(j),
                forall|k: Seq<char>| #[trigger] self.buses.map().contains_key(k) <==> self.buses.keys().contains(k),
                s@ == buses_text(self.names().take(i as int), self.view()),
            decreases n - i,
        {
            let k = self.buses.key_at(i);
            let bits = self.buses.value_at(i);
            let ghost before = s@;
            push_str(&mut s, k.as_str());
            push_str(&mut s, ": ");
            let mut j: usize = 0;
            while j < bits.len()
                invariant
                    j <= bits.len(),
                    s@ == before + k@ + ": "@ + bits@.take(j as int).map_values(|v: Option<bool>| value_char(v)),
                decreases bits.len() - j,
            {
                push_char(&mut s, match bits[j] {
                    None => '?',
                    Some(true) => '1',
                    Some(false) => '0',
                });
                assert(bits@.take(j + 1).map_values(|v: Option<bool>| value_char(v)) =~= bits@.take(j as int).map_values(
                    |v: Option<bool>| value_char(v),
                ).push(value_char(bits@[j as int])));
                j = j + 1;
            }
            assert(bits@.take(bits.len() as int) =~= bits@);
            push_str(&mut s, "\n");
            proof {
                assert(self.names().take(i + 1).drop_last() =~= self.names().take(i as int));
                assert(self.names().take(i + 1).last() == k@);
                assert(self.buses.keys()[i as int] == k@);
                assert(self.buses.keys().contains(k@));
                assert(self.view()[k@] == bits@);
                assert(s@ =~= buses_text(self.names().take(i + 1), self.view()));
            }
            i = i + 1;
        }
        assert(self.names().take(n as int) =~= self.names());
        s
    }
}

/// The character for a signal value: `?` where it is unknown.
pub open spec fn value_char(v: Option<bool>) -> char {
    match v {
        None => '?',
        Some(true) => '1',
        Some(false) => '0',
    }
}

/// The lines of text for the buses named `names` of `m`.
pub open spec fn buses_text(names: Seq<Seq<char>>, m: Map<Seq<char>, Seq<Option<bool>>>) -> Seq<char>
    decreases names.len(),
{
    if names.len() == 0 {
        Seq::empty()
    } else {
        buses_text(names.drop_last(), m) + names.last() + ": "@ + m[names.last()].map_values(|v: Option<bool>| value_char(v))
            + "\n"@
    }
}

impl PartialEq for BusMap {
    fn eq(&self, other: &Self) -> (r: bool) {
        let r = other.covers_map(self) && self.covers_map(other);
        proof {
            if r {
                assert(self.view() =~= other.view());
            }
        }
        r
    }
}

impl vstd::std_specs::cmp::PartialEqSpecImpl for BusMap {
    open spec fn obeys_eq_spec() -> bool {
        true
    }

    open spec fn eq_spec(&self, other: &Self) -> bool {
        self.view() == other.view()
    }
}

impl PartialOrd for BusMap {
    fn partial_cmp(&self, other: &Self) -> (r: Option<std::cmp::Ordering>) {
        let less = other.covers_map(self);
        let greater = self.covers_map(other);
        if less && greater {
            Some(std::cmp::Ordering::Equal)
        } else if less {
            Some(std::cmp::Ordering::Less)
        } else if greater {
            Some(std::cmp::Ordering::Greater)
        } else {
            None
        }
    }
}

impl vstd::std_specs::cmp::PartialOrdSpecImpl for BusMap {
    open spec fn obeys_partial_cmp_spec() -> bool {
        true
    }

    open spec fn partial_cmp_spec(&self, other: &Self) -> Option<std::cmp::Ordering> {
        let less = covers(other.view(), self.view());
        let greater = covers(self.view(), other.view());
        if less && greater {
            Some(std::cmp::Ordering::Equal)
        } else if less {
            Some(std::cmp::Ordering::Less)
        } else if greater {
            Some(std::cmp::Ordering::Greater)
        } else {
            None
        }
    }
}

impl Default for BusMap {
    fn default() -> (r: Self)
        ensures
            r.view() == Map::<Seq<char>, Seq<Option<bool>>>::empty(),
    {
        BusMap::new()
    }
}

} // verus!