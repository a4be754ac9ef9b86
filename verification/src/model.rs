//! The in-memory representation of a parsed design: the declared chips
//! with the pin names their wires reference, the raw pairwise wire list,
//! and the exposed pins.  Construction enforces that every referenced
//! chip was declared and that no pin is wired to itself; the finished
//! model carries those facts as its invariant and is never rechecked.

use vstd::prelude::*;

use crate::grouping::edges_irreflexive;
use crate::pins::BuildError;
use crate::pins::ChipPin;
use crate::pins::pin_eq;

verus! {

/// The names of a sequence of strings, as character sequences.
pub open spec fn names_view(s: Seq<String>) -> Seq<Seq<char>> {
    s.map_values(|x: String| x@)
}

/// The declared names with later re-declarations dropped: each name keeps
/// its first position.
pub open spec fn dedup_names(s: Seq<Seq<char>>) -> Seq<Seq<char>>
    decreases s.len(),
{
    if s.len() == 0 {
        Seq::empty()
    } else {
        let rest = dedup_names(s.drop_last());
        if rest.contains(s.last()) {
            rest
        } else {
            rest.push(s.last())
        }
    }
}

/// Deduplication keeps exactly the names that occur in the input.
pub proof fn lemma_dedup_names_contains(s: Seq<Seq<char>>)
    ensures
        forall|c: Seq<char>| dedup_names(s).contains(c) <==> s.contains(c),
    decreases s.len(),
{
    if s.len() > 0 {
        lemma_dedup_names_contains(s.drop_last());
        assert forall|c: Seq<char>| s.contains(c) implies dedup_names(s).contains(c) by {
            let i = choose|i: int| 0 <= i < s.len() && s[i] == c;
            if i < s.len() - 1 {
                assert(s.drop_last()[i] == c);
                assert(s.drop_last().contains(c));
                assert(dedup_names(s.drop_last()).contains(c));
                let j = choose|j: int|
                    0 <= j < dedup_names(s.drop_last()).len() && dedup_names(s.drop_last())[j] == c;
                if !dedup_names(s.drop_last()).contains(s.last()) {
                    assert(dedup_names(s)[j] == c);
                }
            } else {
                if dedup_names(s.drop_last()).contains(s.last()) {
                    assert(dedup_names(s).contains(c));
                } else {
                    assert(dedup_names(s).last() == c);
                }
            }
        };
        assert forall|c: Seq<char>| dedup_names(s).contains(c) implies s.contains(c) by {
            let j = choose|j: int| 0 <= j < dedup_names(s).len() && dedup_names(s)[j] == c;
            if j < dedup_names(s.drop_last()).len() {
                assert(dedup_names(s.drop_last())[j] == c);
                assert(s.drop_last().contains(c));
                let i = choose|i: int| 0 <= i < s.drop_last().len() && s.drop_last()[i] == c;
                assert(s[i] == c);
            } else {
                assert(c == s.last());
                assert(s[s.len() - 1] == c);
            }
        };
    }
}

/// Deduplication never repeats a name.
pub proof fn lemma_dedup_names_distinct(s: Seq<Seq<char>>)
    ensures
        forall|i: int, j: int|
            0 <= i < dedup_names(s).len() && 0 <= j < dedup_names(s).len() && i != j
                ==> dedup_names(s)[i] != dedup_names(s)[j],
    decreases s.len(),
{
    if s.len() > 0 {
        lemma_dedup_names_distinct(s.drop_last());
        let rest = dedup_names(s.drop_last());
        assert forall|i: int, j: int|
            0 <= i < dedup_names(s).len() && 0 <= j < dedup_names(s).len() && i != j implies
            dedup_names(s)[i] != dedup_names(s)[j] by {
            if !rest.contains(s.last()) {
                if i < rest.len() && j < rest.len() {
                } else if i < rest.len() {
                    assert(dedup_names(s)[j] == s.last());
                    assert(dedup_names(s)[i] == rest[i]);
                    assert(!rest.contains(s.last()));
                    assert(rest[i] != s.last());
                } else {
                    assert(dedup_names(s)[i] == s.last());
                    assert(dedup_names(s)[j] == rest[j]);
                    assert(rest[j] != s.last());
                }
            }
        };
    }
}

/// The pin names that the wire list references on chip `c`, one entry
/// per mention, in wire order.
pub open spec fn spec_pins_of(conns: Seq<(ChipPin, ChipPin)>, c: Seq<char>) -> Seq<Seq<char>>
    decreases conns.len(),
{
    if conns.len() == 0 {
        Seq::empty()
    } else {
        let rest = spec_pins_of(conns.drop_last(), c);
        let with_first = if conns.last().0.chip@ == c {
            rest.push(conns.last().0.pin@)
        } else {
            rest
        };
        if conns.last().1.chip@ == c {
            with_first.push(conns.last().1.pin@)
        } else {
            with_first
        }
    }
}

/// Every pin a wire references on chip `c` stands in that chip's
/// referenced-pin list.
pub proof fn lemma_endpoint_pin_listed(conns: Seq<(ChipPin, ChipPin)>, k: int)
    requires
        0 <= k < conns.len(),
    ensures
        spec_pins_of(conns, conns[k].0.chip@).contains(conns[k].0.pin@),
        spec_pins_of(conns, conns[k].1.chip@).contains(conns[k].1.pin@),
    decreases conns.len(),
{
    if k < conns.len() - 1 {
        lemma_endpoint_pin_listed(conns.drop_last(), k);
        assert(conns.drop_last()[k] == conns[k]);
        lemma_spec_pins_of_extends(conns, conns[k].0.chip@);
        lemma_spec_pins_of_extends(conns, conns[k].1.chip@);
    } else {
        let c0 = conns[k].0.chip@;
        let c1 = conns[k].1.chip@;
        let rest0 = spec_pins_of(conns.drop_last(), c0);
        if conns.last().1.chip@ == c0 && conns.last().1.pin@ == conns[k].0.pin@ {
            let s = spec_pins_of(conns, c0);
            assert(s.last() == conns[k].0.pin@);
            assert(s.contains(conns[k].0.pin@));
        } else {
            let w = if conns.last().0.chip@ == c0 {
                rest0.push(conns.last().0.pin@)
            } else {
                rest0
            };
            assert(w.last() == conns[k].0.pin@);
            assert(w.contains(conns[k].0.pin@));
            lemma_contains_push(w, conns[k].0.pin@, conns.last().1.pin@,
                conns.last().1.chip@ == c0);
            assert(spec_pins_of(conns, c0).contains(conns[k].0.pin@));
        }
        let s1 = spec_pins_of(conns, c1);
        assert(s1.last() == conns[k].1.pin@);
        assert(s1.contains(conns[k].1.pin@));
    }
}

/// Whatever a list contains it still contains after a push.
proof fn lemma_contains_push(s: Seq<Seq<char>>, x: Seq<char>, y: Seq<char>, pushed: bool)
    requires
        s.contains(x),
    ensures
        pushed ==> s.push(y).contains(x),
{
    if pushed {
        let i = choose|i: int| 0 <= i < s.len() && s[i] == x;
        assert(s.push(y)[i] == x);
    }
}

/// A longer wire list references at least the pins the shorter one does.
proof fn lemma_spec_pins_of_extends(conns: Seq<(ChipPin, ChipPin)>, c: Seq<char>)
    requires
        conns.len() > 0,
    ensures
        forall|p: Seq<char>|
            spec_pins_of(conns.drop_last(), c).contains(p) ==> spec_pins_of(conns, c).contains(p),
{
    let rest = spec_pins_of(conns.drop_last(), c);
    assert forall|p: Seq<char>| rest.contains(p) implies spec_pins_of(conns, c).contains(p) by {
        let i = choose|i: int| 0 <= i < rest.len() && rest[i] == p;
        assert(spec_pins_of(conns, c)[i] == p);
    };
}

/// Whether a chip with name `c` stands in the declared list.
pub open spec fn chip_declared(chips: Seq<String>, c: Seq<char>) -> bool {
    exists|i: int| 0 <= i < chips.len() && chips[i]@ == c
}

/// The first rule a single wire violates against the declared chips:
/// a self-connection, or an endpoint on an undeclared chip.
pub open spec fn spec_edge_error(cn: Seq<Seq<char>>, e: (ChipPin, ChipPin)) -> Option<BuildError> {
    if e.0@ == e.1@ {
        Some(BuildError::SelfConnection(e.0))
    } else if !cn.contains(e.0.chip@) {
        Some(BuildError::UndeclaredChip(e.0.chip))
    } else if !cn.contains(e.1.chip@) {
        Some(BuildError::UndeclaredChip(e.1.chip))
    } else {
        None
    }
}

/// The rule an expose statement violates: an undeclared chip.
pub open spec fn spec_expose_error(cn: Seq<Seq<char>>, p: ChipPin) -> Option<BuildError> {
    if !cn.contains(p.chip@) {
        Some(BuildError::UndeclaredChip(p.chip))
    } else {
        None
    }
}

/// Whether a parsed design is clean: no wire and no expose statement
/// violates a construction rule.
pub open spec fn model_input_ok(
    cn: Seq<Seq<char>>,
    conns: Seq<(ChipPin, ChipPin)>,
    exposed: Seq<ChipPin>,
) -> bool {
    &&& forall|k: int| 0 <= k < conns.len() ==> spec_edge_error(cn, #[trigger] conns[k]) is None
    &&& forall|j: int|
        0 <= j < exposed.len() ==> spec_expose_error(cn, #[trigger] exposed[j]) is None
}

/// Whether `e` is the first violation of a parsed design, in scan order:
/// the wires in order, each wire's own rules in order, then the expose
/// statements in order.
pub open spec fn model_first_error(
    cn: Seq<Seq<char>>,
    conns: Seq<(ChipPin, ChipPin)>,
    exposed: Seq<ChipPin>,
    e: BuildError,
) -> bool {
    ||| exists|k: int|
        0 <= k < conns.len() && spec_edge_error(cn, conns[k]) == Some(e) && (forall|t: int|
            0 <= t < k ==> spec_edge_error(cn, #[trigger] conns[t]) is None)
    ||| ((forall|k: int| 0 <= k < conns.len() ==> spec_edge_error(cn, #[trigger] conns[k]) is None)
        && exists|j: int|
        0 <= j < exposed.len() && spec_expose_error(cn, exposed[j]) == Some(e) && (forall|t: int|
            0 <= t < j ==> spec_expose_error(cn, #[trigger] exposed[t]) is None))
}

/// The in-memory model of a parsed design.
#[derive(Debug)]
pub struct NetlistModel {
    /// The declared chip names, in declaration order, none repeated.
    pub chips: Vec<String>,
    /// For each declared chip, the pin names its wires reference, one
    /// entry per mention.
    pub chip_pins: Vec<Vec<String>>,
    /// The raw pairwise wire list.
    pub connections: Vec<(ChipPin, ChipPin)>,
    /// The pins presented outward.
    pub exposed: Vec<ChipPin>,
}

impl NetlistModel {
    /// The model's invariant, established at construction and assumed,
    /// never rechecked, afterwards.
    pub open spec fn wf(self) -> bool {
        &&& self.chips@.len() == self.chip_pins@.len()
        &&& forall|i: int, j: int|
            0 <= i < self.chips@.len() && 0 <= j < self.chips@.len() && i != j
                ==> (#[trigger] self.chips@[i])@ != (#[trigger] self.chips@[j])@
        &&& edges_irreflexive(self.connections@)
        &&& forall|k: int|
            0 <= k < self.connections@.len() ==> chip_declared(
                self.chips@,
                (#[trigger] self.connections@[k]).0.chip@,
            ) && chip_declared(self.chips@, self.connections@[k].1.chip@)
        &&& forall|i: int|
            0 <= i < self.chips@.len() ==> names_view((#[trigger] self.chip_pins@[i])@)
                == spec_pins_of(self.connections@, self.chips@[i]@)
        &&& forall|j: int|
            0 <= j < self.exposed@.len() ==> chip_declared(
                self.chips@,
                (#[trigger] self.exposed@[j]).chip@,
            )
    }
}

/// Finds the position of name `s` in `names`, if any.
fn name_index(names: &Vec<String>, s: &String) -> (r: Option<usize>)
    ensures
        match r {
            Some(i) => i < names@.len() && names@[i as int]@ == s@,
            None => forall|i: int| 0 <= i < names@.len() ==> (#[trigger] names@[i])@ != s@,
        },
{
    let mut i: usize = 0;
    while i < names.len()
        invariant
            i <= names@.len(),
            forall|j: int| 0 <= j < i ==> (#[trigger] names@[j])@ != s@,
        decreases names@.len() - i,
    {
        if names[i] == *s {
            return Some(i);
        }
        i = i + 1;
    }
    None
}

/// Builds the model of a parsed design from its plain statements: the
/// declared chip names, the wires, and the exposed pins.  Fails with the
/// first violation in scan order: a pin wired to itself is rejected, as
/// is any wire endpoint or exposed pin on an undeclared chip.
pub fn build_model(
    chips: &Vec<String>,
    connections: &Vec<(ChipPin, ChipPin)>,
    exposed: &Vec<ChipPin>,
) -> (r: Result<NetlistModel, BuildError>)
    ensures
        match r {
            Ok(m) => {
                &&& model_input_ok(names_view(chips@), connections@, exposed@)
                &&& m.wf()
                &&& m.connections@ == connections@
                &&& m.exposed@ == exposed@
                &&& names_view(m.chips@) == dedup_names(names_view(chips@))
            },
            Err(e) => model_first_error(names_view(chips@), connections@, exposed@, e),
        },
{
    let ghost cn = names_view(chips@);
    // keep the first occurrence of every declared name
    let mut declared: Vec<String> = Vec::new();
    let mut i: usize = 0;
    while i < chips.len()
        invariant
            i <= chips@.len(),
            names_view(declared@) == dedup_names(names_view(chips@).take(i as int)),
        decreases chips@.len() - i,
    {
        proof {
            assert(names_view(chips@).take(i as int + 1).drop_last() =~= names_view(chips@).take(
                i as int,
            ));
            assert(names_view(chips@).take(i as int + 1).last() == chips@[i as int]@);
        }
        match name_index(&declared, &chips[i]) {
            Some(_) => {
                proof {
                    let rest = dedup_names(names_view(chips@).take(i as int));
                    let j = choose|j: int| 0 <= j < declared@.len() && declared@[j]@ == chips@[
                        i as int
                    ]@;
                    assert(names_view(declared@)[j] == chips@[i as int]@);
                    assert(rest.contains(chips@[i as int]@));
                }
            },
            None => {
                proof {
                    let rest = dedup_names(names_view(chips@).take(i as int));
                    assert forall|j: int| 0 <= j < rest.len() implies rest[j] != chips@[
                        i as int
                    ]@ by {
                        assert(names_view(declared@)[j] == declared@[j]@);
                    };
                    assert(!rest.contains(chips@[i as int]@));
                }
                let ghost pre = declared@;
                declared.push(chips[i].clone());
                proof {
                    assert(names_view(declared@) =~= names_view(pre).push(chips@[i as int]@));
                }
            },
        }
        i = i + 1;
    }
    proof {
        assert(names_view(chips@).take(chips@.len() as int) =~= names_view(chips@));
        lemma_dedup_names_contains(cn);
        lemma_dedup_names_distinct(cn);
    }
    // validate the wires in order
    let mut k: usize = 0;
    while k < connections.len()
        invariant
            k <= connections@.len(),
            names_view(declared@) == dedup_names(cn),
            cn == names_view(chips@),
            forall|c: Seq<char>| dedup_names(cn).contains(c) <==> cn.contains(c),
            forall|t: int|
                0 <= t < k ==> spec_edge_error(cn, #[trigger] connections@[t]) is None,
        decreases connections@.len() - k,
    {
        let e0 = &connections[k].0;
        let e1 = &connections[k].1;
        if pin_eq(e0, e1) {
            proof {
                assert(spec_edge_error(cn, connections@[k as int]) == Some(
                    BuildError::SelfConnection(connections@[k as int].0),
                ));
                assert(model_first_error(
                    cn,
                    connections@,
                    exposed@,
                    BuildError::SelfConnection(connections@[k as int].0),
                ));
            }
            return Err(BuildError::SelfConnection(e0.clone()));
        }
        if name_index(&declared, &e0.chip).is_none() {
            proof {
                assert(!dedup_names(cn).contains(connections@[k as int].0.chip@)) by {
                    if dedup_names(cn).contains(connections@[k as int].0.chip@) {
                        let j = choose|j: int|
                            0 <= j < dedup_names(cn).len() && dedup_names(cn)[j] == connections@[
                                k as int
                            ].0.chip@;
                        assert(names_view(declared@)[j] == declared@[j]@);
                    }
                };
                assert(!cn.contains(connections@[k as int].0.chip@));
                assert(spec_edge_error(cn, connections@[k as int]) == Some(
                    BuildError::UndeclaredChip(connections@[k as int].0.chip),
                ));
                assert(model_first_error(
                    cn,
                    connections@,
                    exposed@,
                    BuildError::UndeclaredChip(connections@[k as int].0.chip),
                ));
            }
            return Err(BuildError::UndeclaredChip(e0.chip.clone()));
        }
        if name_index(&declared, &e1.chip).is_none() {
            proof {
                assert(!dedup_names(cn).contains(connections@[k as int].1.chip@)) by {
                    if dedup_names(cn).contains(connections@[k as int].1.chip@) {
                        let j = choose|j: int|
                            0 <= j < dedup_names(cn).len() && dedup_names(cn)[j] == connections@[
                                k as int
                            ].1.chip@;
                        assert(names_view(declared@)[j] == declared@[j]@);
                    }
                };
                assert(!cn.contains(connections@[k as int].1.chip@));
                let j0 = choose|j: int|
                    0 <= j < declared@.len() && declared@[j]@ == connections@[k as int].0.chip@;
                assert(names_view(declared@)[j0] == connections@[k as int].0.chip@);
                assert(dedup_names(cn).contains(connections@[k as int].0.chip@));
                assert(cn.contains(connections@[k as int].0.chip@));
                assert(spec_edge_error(cn, connections@[k as int]) == Some(
                    BuildError::UndeclaredChip(connections@[k as int].1.chip),
                ));
                assert(model_first_error(
                    cn,
                    connections@,
                    exposed@,
                    BuildError::UndeclaredChip(connections@[k as int].1.chip),
                ));
            }
            return Err(BuildError::UndeclaredChip(e1.chip.clone()));
        }
        proof {
            let j0 = choose|j: int| 0 <= j < declared@.len() && declared@[j]@ == connections@[
                k as int
            ].0.chip@;
            assert(names_view(declared@)[j0] == connections@[k as int].0.chip@);
            assert(cn.contains(connections@[k as int].0.chip@));
            let j1 = choose|j: int| 0 <= j < declared@.len() && declared@[j]@ == connections@[
                k as int
            ].1.chip@;
            assert(names_view(declared@)[j1] == connections@[k as int].1.chip@);
            assert(cn.contains(connections@[k as int].1.chip@));
            assert(spec_edge_error(cn, connections@[k as int]) is None);
        }
        k = k + 1;
    }
    // validate the expose statements in order
    let mut j: usize = 0;
    while j < exposed.len()
        invariant
            j <= exposed@.len(),
            names_view(declared@) == dedup_names(cn),
            cn == names_view(chips@),
            forall|c: Seq<char>| dedup_names(cn).contains(c) <==> cn.contains(c),
            forall|t: int| 0 <= t < k ==> spec_edge_error(cn, #[trigger] connections@[t]) is None,
            forall|t: int| 0 <= t < j ==> spec_expose_error(cn, #[trigger] exposed@[t]) is None,
            k == connections@.len(),
        decreases exposed@.len() - j,
    {
        if name_index(&declared, &exposed[j].chip).is_none() {
            proof {
                assert(!dedup_names(cn).contains(exposed@[j as int].chip@)) by {
                    if dedup_names(cn).contains(exposed@[j as int].chip@) {
                        let t = choose|t: int|
                            0 <= t < dedup_names(cn).len() && dedup_names(cn)[t] == exposed@[
                                j as int
                            ].chip@;
                        assert(names_view(declared@)[t] == declared@[t]@);
                    }
                };
                assert(!cn.contains(exposed@[j as int].chip@));
                assert(spec_expose_error(cn, exposed@[j as int]) == Some(
                    BuildError::UndeclaredChip(exposed@[j as int].chip),
                ));
                assert(model_first_error(
                    cn,
                    connections@,
                    exposed@,
                    BuildError::UndeclaredChip(exposed@[j as int].chip),
                ));
            }
            return Err(BuildError::UndeclaredChip(exposed[j].chip.clone()));
        }
        proof {
            let t = choose|t: int| 0 <= t < declared@.len() && declared@[t]@ == exposed@[
                j as int
            ].chip@;
            assert(names_view(declared@)[t] == exposed@[j as int].chip@);
            assert(cn.contains(exposed@[j as int].chip@));
            assert(spec_expose_error(cn, exposed@[j as int]) is None);
        }
        j = j + 1;
    }
    // gather, per declared chip, the pin names its wires reference
    let mut chip_pins: Vec<Vec<String>> = Vec::new();
    let mut i2: usize = 0;
    while i2 < declared.len()
        invariant
            i2 <= declared@.len(),
            chip_pins@.len() == i2,
            forall|t: int|
                0 <= t < i2 ==> names_view((#[trigger] chip_pins@[t])@) == spec_pins_of(
                    connections@,
                    declared@[t]@,
                ),
        decreases declared@.len() - i2,
    {
        let mut pins_here: Vec<String> = Vec::new();
        let mut t: usize = 0;
        while t < connections.len()
            invariant
                t <= connections@.len(),
                i2 < declared@.len(),
                names_view(pins_here@) == spec_pins_of(
                    connections@.take(t as int),
                    declared@[i2 as int]@,
                ),
            decreases connections@.len() - t,
        {
            proof {
                assert(connections@.take(t as int + 1).drop_last() =~= connections@.take(t as int));
                assert(connections@.take(t as int + 1).last() == connections@[t as int]);
            }
            if connections[t].0.chip == declared[i2] {
                let ghost pre = pins_here@;
                pins_here.push(connections[t].0.pin.clone());
                proof {
                    assert(names_view(pins_here@) =~= names_view(pre).push(
                        connections@[t as int].0.pin@,
                    ));
                }
            }
            if connections[t].1.chip == declared[i2] {
                let ghost pre = pins_here@;
                pins_here.push(connections[t].1.pin.clone());
                proof {
                    assert(names_view(pins_here@) =~= names_view(pre).push(
                        connections@[t as int].1.pin@,
                    ));
                }
            }
            t = t + 1;
        }
        proof {
            assert(connections@.take(connections@.len() as int) =~= connections@);
        }
        chip_pins.push(pins_here);
        i2 = i2 + 1;
    }
    // copy the wires and the exposed pins into the model
    let mut conns2: Vec<(ChipPin, ChipPin)> = Vec::new();
    let mut k2: usize = 0;
    while k2 < connections.len()
        invariant
            k2 <= connections@.len(),
            conns2@.len() == k2,
            forall|t: int| 0 <= t < k2 ==> (#[trigger] conns2@[t]) == connections@[t],
        decreases connections@.len() - k2,
    {
        conns2.push((connections[k2].0.clone(), connections[k2].1.clone()));
        k2 = k2 + 1;
    }
    let mut exposed2: Vec<ChipPin> = Vec::new();
    let mut j2: usize = 0;
    while j2 < exposed.len()
        invariant
            j2 <= exposed@.len(),
            exposed2@.len() == j2,
            forall|t: int| 0 <= t < j2 ==> (#[trigger] exposed2@[t]) == exposed@[t],
        decreases exposed@.len() - j2,
    {
        exposed2.push(exposed[j2].clone());
        j2 = j2 + 1;
    }
    proof {
        assert(conns2@ =~= connections@);
        assert(exposed2@ =~= exposed@);
    }
    let m = NetlistModel { chips: declared, chip_pins, connections: conns2, exposed: exposed2 };
    proof {
        assert(m.wf()) by {
            assert forall|a: int, b: int|
                0 <= a < m.chips@.len() && 0 <= b < m.chips@.len() && a != b implies (
            #[trigger] m.chips@[a])@ != (#[trigger] m.chips@[b])@ by {
                assert(names_view(m.chips@)[a] == m.chips@[a]@);
                assert(names_view(m.chips@)[b] == m.chips@[b]@);
            };
            assert forall|k3: int| 0 <= k3 < m.connections@.len() implies chip_declared(
                m.chips@,
                (#[trigger] m.connections@[k3]).0.chip@,
            ) && chip_declared(m.chips@, m.connections@[k3].1.chip@) by {
                assert(spec_edge_error(cn, connections@[k3]) is None);
                assert(cn.contains(connections@[k3].0.chip@));
                assert(dedup_names(cn).contains(connections@[k3].0.chip@));
                let a = choose|a: int|
                    0 <= a < dedup_names(cn).len() && dedup_names(cn)[a] == connections@[
                        k3
                    ].0.chip@;
                assert(names_view(m.chips@)[a] == m.chips@[a]@);
                assert(m.chips@[a]@ == connections@[k3].0.chip@);
                assert(cn.contains(connections@[k3].1.chip@));
                assert(dedup_names(cn).contains(connections@[k3].1.chip@));
                let b = choose|b: int|
                    0 <= b < dedup_names(cn).len() && dedup_names(cn)[b] == connections@[
                        k3
                    ].1.chip@;
                assert(names_view(m.chips@)[b] == m.chips@[b]@);
                assert(m.chips@[b]@ == connections@[k3].1.chip@);
            };
            assert forall|e: int| 0 <= e < m.exposed@.len() implies chip_declared(
                m.chips@,
                (#[trigger] m.exposed@[e]).chip@,
            ) by {
                assert(spec_expose_error(cn, exposed@[e]) is None);
                assert(cn.contains(exposed@[e].chip@));
                assert(dedup_names(cn).contains(exposed@[e].chip@));
                let a = choose|a: int|
                    0 <= a < dedup_names(cn).len() && dedup_names(cn)[a] == exposed@[e].chip@;
                assert(names_view(m.chips@)[a] == m.chips@[a]@);
            };
            assert forall|k3: int| 0 <= k3 < m.connections@.len() implies (
            #[trigger] m.connections@[k3]).0@ != m.connections@[k3].1@ by {
                assert(spec_edge_error(cn, connections@[k3]) is None);
            };
        };
    }
    Ok(m)
}

} // verus!
