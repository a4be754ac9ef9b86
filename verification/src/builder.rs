//! The netlist builder: accumulates chip instances against the model,
//! validates completeness, pin existence and per-wire compatibility,
//! then groups and classifies the shorted pins into the finished,
//! immutable connection list.  Every check is terminal: the first
//! violation found is returned and nothing else is inspected.
//!
//! A chip instance is handed over as its reported pin table, a metadata
//! snapshot taken once when the chip is added: the builder never queries
//! a live chip again, and classification reads the same snapshots that
//! the wire checks validated.

use vstd::prelude::*;

use crate::classify::classified_pins;
use crate::classify::classify_group;
use crate::classify::classify_matches;
use crate::classify::lemma_classification_preserves_members;
use crate::classify::lemma_member_pins_index;
use crate::classify::member_pins;
use crate::classify::pins_compatible;
use crate::classify::spec_pins_compatible;
use crate::grouping::group_connected_pins;
use crate::grouping::id_in_edges;
use crate::grouping::id_in_group;
use crate::grouping::lemma_pin_in_exactly_one_group;
use crate::grouping::valid_grouping;
use crate::model::NetlistModel;
use crate::model::chip_declared;
use crate::model::lemma_endpoint_pin_listed;
use crate::model::names_view;
use crate::model::spec_pins_of;
use crate::pins::BuildError;
use crate::pins::ChipPin;
use crate::pins::ConnectedPins;
use crate::pins::PinMetadata;

verus! {

/// The finished netlist: the classified connection groups, in group
/// order, and the pins the design presents outward.
#[derive(Debug)]
pub struct FinishedNetlist {
    pub connections: Vec<ConnectedPins>,
    pub exposed: Vec<ChipPin>,
}

/// The chip instance the builder holds for one added name: the name and
/// the pin table the chip reported, each pin with its metadata snapshot.
pub type ChipEntry = (String, Vec<(String, PinMetadata)>);

/// The instance table an added chip name resolves to.  A name added
/// twice resolves to the entry added last.
pub open spec fn spec_chip_lookup(chips: Seq<ChipEntry>, c: Seq<char>) -> Option<
    Vec<(String, PinMetadata)>,
>
    decreases chips.len(),
{
    if chips.len() == 0 {
        None
    } else if chips.last().0@ == c {
        Some(chips.last().1)
    } else {
        spec_chip_lookup(chips.drop_last(), c)
    }
}

/// The metadata a pin name resolves to in a chip's reported table.  A
/// name reported twice resolves to the entry reported last.
pub open spec fn spec_table_lookup(t: Seq<(String, PinMetadata)>, p: Seq<char>) -> Option<
    PinMetadata,
>
    decreases t.len(),
{
    if t.len() == 0 {
        None
    } else if t.last().0@ == p {
        Some(t.last().1)
    } else {
        spec_table_lookup(t.drop_last(), p)
    }
}

/// The metadata snapshot the added chips hold for the pin identity `id`.
pub open spec fn spec_md(chips: Seq<ChipEntry>, id: (Seq<char>, Seq<char>)) -> Option<
    PinMetadata,
> {
    match spec_chip_lookup(chips, id.0) {
        Some(t) => spec_table_lookup(t@, id.1),
        None => None,
    }
}

/// Every declared chip name has an added instance.
pub open spec fn all_chips_added(model: NetlistModel, chips: Seq<ChipEntry>) -> bool {
    forall|i: int|
        0 <= i < model.chips@.len() ==> spec_chip_lookup(
            chips,
            (#[trigger] model.chips@[i])@,
        ) is Some
}

/// The declared chip at position `i` is the first without an instance.
pub open spec fn missing_at(model: NetlistModel, chips: Seq<ChipEntry>, i: int) -> bool {
    &&& 0 <= i < model.chips@.len()
    &&& spec_chip_lookup(chips, model.chips@[i]@) is None
    &&& forall|t: int|
        0 <= t < i ==> spec_chip_lookup(chips, (#[trigger] model.chips@[t])@) is Some
}

/// Every pin name the wires reference exists in the owning chip's table.
pub open spec fn all_pins_known(model: NetlistModel, chips: Seq<ChipEntry>) -> bool {
    forall|i: int, j: int|
        0 <= i < model.chips@.len() && 0 <= j < model.chip_pins@[i]@.len() ==> spec_md(
            chips,
            ((#[trigger] model.chips@[i])@, (#[trigger] model.chip_pins@[i]@[j])@),
        ) is Some
}

/// The pin reference at chip `i`, position `j` is the first absent from
/// its chip's table, scanning chips in declaration order and each chip's
/// references in wire order.
pub open spec fn unknown_at(model: NetlistModel, chips: Seq<ChipEntry>, i: int, j: int) -> bool {
    &&& 0 <= i < model.chips@.len()
    &&& 0 <= j < model.chip_pins@[i]@.len()
    &&& spec_md(chips, (model.chips@[i]@, model.chip_pins@[i]@[j]@)) is None
    &&& forall|a: int, b: int|
        0 <= a < model.chips@.len() && 0 <= b < model.chip_pins@[a]@.len() && (a < i || (a == i && b
            < j)) ==> spec_md(
            chips,
            ((#[trigger] model.chips@[a])@, (#[trigger] model.chip_pins@[a]@[b])@),
        ) is Some
}

/// Whether one wire passes the per-pair compatibility rule under the
/// added chips' metadata.
pub open spec fn edge_pair_ok(chips: Seq<ChipEntry>, e: (ChipPin, ChipPin)) -> bool {
    match (spec_md(chips, e.0@), spec_md(chips, e.1@)) {
        (Some(a), Some(b)) => spec_pins_compatible(a, b),
        _ => true,
    }
}

/// Every wire passes the per-pair compatibility rule.
pub open spec fn all_edges_compatible(model: NetlistModel, chips: Seq<ChipEntry>) -> bool {
    forall|k: int|
        0 <= k < model.connections@.len() ==> edge_pair_ok(chips, #[trigger] model.connections@[k])
}

/// The wire at position `k` is the first that fails the per-pair rule.
pub open spec fn incompatible_at(model: NetlistModel, chips: Seq<ChipEntry>, k: int) -> bool {
    &&& 0 <= k < model.connections@.len()
    &&& !edge_pair_ok(chips, model.connections@[k])
    &&& forall|t: int|
        0 <= t < k ==> edge_pair_ok(chips, #[trigger] model.connections@[t])
}

/// `ms` is, member for member, the group at position `g` of the valid
/// grouping `groups` of the model's wires, each member carrying the
/// metadata snapshot its chip holds for it.
pub open spec fn group_members_md(
    model: NetlistModel,
    chips: Seq<ChipEntry>,
    groups: Seq<Vec<ChipPin>>,
    g: int,
    ms: Seq<(ChipPin, PinMetadata)>,
) -> bool {
    &&& valid_grouping(groups, model.connections@)
    &&& 0 <= g < groups.len()
    &&& ms.len() == groups[g]@.len()
    &&& forall|m: int|
        0 <= m < ms.len() ==> (#[trigger] ms[m]).0 == groups[g]@[m] && spec_md(
            chips,
            groups[g]@[m]@,
        ) == Some(ms[m].1)
}

/// `ms` is a real group of some valid grouping of the model's wires,
/// with its members' metadata: what the classifier is handed during a
/// build, and nothing else.
pub open spec fn failing_group(
    model: NetlistModel,
    chips: Seq<ChipEntry>,
    ms: Seq<(ChipPin, PinMetadata)>,
) -> bool {
    exists|groups: Seq<Vec<ChipPin>>, g: int| group_members_md(model, chips, groups, g, ms)
}

/// How a finished netlist relates to the model and the added chips: the
/// groups partition the wired pins, each group's members carry their
/// chips' metadata, and each output entry is the classification the
/// rules owe that group.
pub open spec fn built_groups_ok(
    model: NetlistModel,
    chips: Seq<ChipEntry>,
    groups: Seq<Vec<ChipPin>>,
    members: Seq<Seq<(ChipPin, PinMetadata)>>,
    out: Seq<ConnectedPins>,
) -> bool {
    &&& valid_grouping(groups, model.connections@)
    &&& members.len() == groups.len()
    &&& out.len() == groups.len()
    &&& forall|g: int| 0 <= g < groups.len() ==> (#[trigger] members[g]).len() == groups[g]@.len()
    &&& forall|g: int, m: int|
        0 <= g < groups.len() && 0 <= m < groups[g]@.len() ==> (#[trigger] members[g][m]).0
            == groups[g]@[m] && spec_md(chips, groups[g]@[m]@) == Some(members[g][m].1)
    &&& forall|g: int|
        0 <= g < groups.len() ==> classify_matches(#[trigger] members[g], Ok(out[g]))
}

/// The partition of the shorted groups carries over to the classified
/// output of a successful build: every wired pin stands in exactly one
/// entry of the finished connection list, and a pin never wired stands
/// in none.
pub proof fn lemma_netlist_covers_wired_pins(
    model: NetlistModel,
    chips: Seq<ChipEntry>,
    groups: Seq<Vec<ChipPin>>,
    members: Seq<Seq<(ChipPin, PinMetadata)>>,
    out: Seq<ConnectedPins>,
    id: (Seq<char>, Seq<char>),
)
    requires
        built_groups_ok(model, chips, groups, members, out),
    ensures
        id_in_edges(model.connections@, id) ==> exists|g: int|
            0 <= g < out.len() && id_in_group(classified_pins(out[g]), id),
        forall|g1: int, g2: int|
            0 <= g1 < out.len() && 0 <= g2 < out.len() && id_in_group(
                classified_pins(out[g1]),
                id,
            ) && id_in_group(classified_pins(out[g2]), id) ==> g1 == g2,
        !id_in_edges(model.connections@, id) ==> (forall|g: int|
            0 <= g < out.len() ==> !id_in_group(classified_pins(out[g]), id)),
{
    // an identity in a classified entry is an identity in that group
    assert forall|g: int|
        0 <= g < out.len() && id_in_group(classified_pins(out[g]), id) implies id_in_group(
        groups[g]@,
        id,
    ) by {
        let i = choose|i: int|
            0 <= i < classified_pins(out[g]).len() && classified_pins(out[g])[i]@ == id;
        lemma_classification_preserves_members(members[g], out[g]);
        assert(member_pins(members[g]).contains(classified_pins(out[g])[i]));
        let j = choose|j: int|
            0 <= j < member_pins(members[g]).len() && member_pins(members[g])[j]
                == classified_pins(out[g])[i];
        lemma_member_pins_index(members[g]);
        assert(member_pins(members[g])[j] == members[g][j].0);
        assert(members[g][j].0 == groups[g]@[j]);
        assert(groups[g]@[j]@ == id);
        assert(id_in_group(groups[g]@, id));
    };
    if id_in_edges(model.connections@, id) {
        let g = choose|g: int| 0 <= g < groups.len() && id_in_group(groups[g]@, id);
        let m = choose|m: int| 0 <= m < groups[g]@.len() && groups[g]@[m]@ == id;
        lemma_classification_preserves_members(members[g], out[g]);
        assert(members[g][m].0 == groups[g]@[m]);
        assert(classified_pins(out[g]).contains(members[g][m].0));
        let i = choose|i: int|
            0 <= i < classified_pins(out[g]).len() && classified_pins(out[g])[i] == members[g][m].0;
        assert(classified_pins(out[g])[i]@ == id);
        assert(id_in_group(classified_pins(out[g]), id));
        assert(exists|g2: int| 0 <= g2 < out.len() && id_in_group(classified_pins(out[g2]), id));
    }
    assert forall|g1: int, g2: int|
        0 <= g1 < out.len() && 0 <= g2 < out.len() && id_in_group(classified_pins(out[g1]), id)
            && id_in_group(classified_pins(out[g2]), id) implies g1 == g2 by {
        assert(id_in_group(groups[g1]@, id));
        assert(id_in_group(groups[g2]@, id));
        lemma_pin_in_exactly_one_group(groups, model.connections@, id);
    };
    if !id_in_edges(model.connections@, id) {
        assert forall|g: int| 0 <= g < out.len() implies !id_in_group(
            classified_pins(out[g]),
            id,
        ) by {
            if id_in_group(classified_pins(out[g]), id) {
                assert(id_in_group(groups[g]@, id));
                let m = choose|m: int| 0 <= m < groups[g]@.len() && groups[g]@[m]@ == id;
                assert(id_in_edges(model.connections@, groups[g]@[m]@));
                assert(false);
            }
        };
    }
}

/// What a successful build promises.
pub open spec fn build_ok(model: NetlistModel, chips: Seq<ChipEntry>, n: FinishedNetlist) -> bool {
    &&& all_chips_added(model, chips)
    &&& all_pins_known(model, chips)
    &&& all_edges_compatible(model, chips)
    &&& n.exposed@ == model.exposed@
    &&& exists|groups: Seq<Vec<ChipPin>>, members: Seq<Seq<(ChipPin, PinMetadata)>>|
        built_groups_ok(model, chips, groups, members, n.connections@)
}

/// Which diagnostics a failed build may report, and on exactly which
/// state of the design each one comes: the checks run in order and the
/// first violation wins.
pub open spec fn build_err(model: NetlistModel, chips: Seq<ChipEntry>, e: BuildError) -> bool {
    ||| exists|i: int| missing_at(model, chips, i) && e == BuildError::MissingChip(model.chips@[i])
    ||| (all_chips_added(model, chips) && exists|i: int, j: int|
        unknown_at(model, chips, i, j) && e == BuildError::UnknownPin(
            model.chips@[i],
            model.chip_pins@[i]@[j],
        ))
    ||| (all_chips_added(model, chips) && all_pins_known(model, chips) && exists|k: int|
        incompatible_at(model, chips, k) && e == BuildError::IncompatiblePins(
            model.connections@[k].0,
            model.connections@[k].1,
        ))
    ||| (all_chips_added(model, chips) && all_pins_known(model, chips) && all_edges_compatible(
        model,
        chips,
    ) && exists|ms: Seq<(ChipPin, PinMetadata)>|
        failing_group(model, chips, ms) && classify_matches(ms, Err(e)))
}

/// Building a design in which some declared chip was never supplied an
/// instance always fails, and reports a missing chip: no later check, on
/// pins or wires, is ever reached.
pub proof fn lemma_missing_chip_fails_first(
    model: NetlistModel,
    chips: Seq<ChipEntry>,
    r: Result<FinishedNetlist, BuildError>,
)
    requires
        !all_chips_added(model, chips),
        match r {
            Ok(n) => build_ok(model, chips, n),
            Err(e) => build_err(model, chips, e),
        },
    ensures
        r is Err,
        r matches Err(e) && e matches BuildError::MissingChip(_),
{
    match r {
        Ok(n) => {
            assert(all_chips_added(model, chips));
            assert(false);
        },
        Err(e) => {
            let i = choose|i: int|
                missing_at(model, chips, i) && e == BuildError::MissingChip(model.chips@[i]);
            assert(e matches BuildError::MissingChip(_));
        },
    }
}

/// Outside the grouping stage, the build contract determines the
/// diagnostic: any two failing results over the same model and chips,
/// failed before every wire passed the per-pair rule, report one and the
/// same first violation.
pub proof fn lemma_failed_build_error_unique(
    model: NetlistModel,
    chips: Seq<ChipEntry>,
    e1: BuildError,
    e2: BuildError,
)
    requires
        build_err(model, chips, e1),
        build_err(model, chips, e2),
        !(all_chips_added(model, chips) && all_pins_known(model, chips) && all_edges_compatible(
            model,
            chips,
        )),
    ensures
        e1 == e2,
{
    if !all_chips_added(model, chips) {
        let i1 = choose|i: int|
            missing_at(model, chips, i) && e1 == BuildError::MissingChip(model.chips@[i]);
        let i2 = choose|i: int|
            missing_at(model, chips, i) && e2 == BuildError::MissingChip(model.chips@[i]);
        if i1 < i2 {
            assert(spec_chip_lookup(chips, model.chips@[i1]@) is Some);
            assert(false);
        }
        if i2 < i1 {
            assert(spec_chip_lookup(chips, model.chips@[i2]@) is Some);
            assert(false);
        }
    } else if !all_pins_known(model, chips) {
        assert forall|i: int| !missing_at(model, chips, i) by {
            if missing_at(model, chips, i) {
                assert(spec_chip_lookup(chips, (model.chips@[i])@) is Some);
            }
        };
        let (i1, j1) = choose|i: int, j: int|
            unknown_at(model, chips, i, j) && e1 == BuildError::UnknownPin(
                model.chips@[i],
                model.chip_pins@[i]@[j],
            );
        let (i2, j2) = choose|i: int, j: int|
            unknown_at(model, chips, i, j) && e2 == BuildError::UnknownPin(
                model.chips@[i],
                model.chip_pins@[i]@[j],
            );
        if i1 < i2 || (i1 == i2 && j1 < j2) {
            assert(spec_md(chips, ((model.chips@[i1])@, (model.chip_pins@[i1]@[j1])@)) is Some);
            assert(false);
        }
        if i2 < i1 || (i1 == i2 && j2 < j1) {
            assert(spec_md(chips, ((model.chips@[i2])@, (model.chip_pins@[i2]@[j2])@)) is Some);
            assert(false);
        }
        assert(i1 == i2 && j1 == j2);
    } else {
        assert forall|i: int| !missing_at(model, chips, i) by {
            if missing_at(model, chips, i) {
                assert(spec_chip_lookup(chips, (model.chips@[i])@) is Some);
            }
        };
        assert forall|i: int, j: int| !unknown_at(model, chips, i, j) by {
            if unknown_at(model, chips, i, j) {
                assert(spec_md(chips, ((model.chips@[i])@, (model.chip_pins@[i]@[j])@)) is Some);
            }
        };
        let k1 = choose|k: int|
            incompatible_at(model, chips, k) && e1 == BuildError::IncompatiblePins(
                model.connections@[k].0,
                model.connections@[k].1,
            );
        let k2 = choose|k: int|
            incompatible_at(model, chips, k) && e2 == BuildError::IncompatiblePins(
                model.connections@[k].0,
                model.connections@[k].1,
            );
        if k1 < k2 {
            assert(edge_pair_ok(chips, model.connections@[k1]));
            assert(false);
        }
        if k2 < k1 {
            assert(edge_pair_ok(chips, model.connections@[k2]));
            assert(false);
        }
    }
}

/// Finds the position of the last added chip entry named `c`, if any.
fn chip_index(chips: &Vec<ChipEntry>, c: &String) -> (r: Option<usize>)
    ensures
        match r {
            Some(i) => i < chips@.len() && chips@[i as int].0@ == c@ && spec_chip_lookup(
                chips@,
                c@,
            ) == Some(chips@[i as int].1),
            None => spec_chip_lookup(chips@, c@) is None,
        },
{
    let mut i: usize = chips.len();
    proof {
        assert(chips@.take(chips@.len() as int) =~= chips@);
    }
    while i > 0
        invariant
            i <= chips@.len(),
            spec_chip_lookup(chips@, c@) == spec_chip_lookup(chips@.take(i as int), c@),
        decreases i,
    {
        i = i - 1;
        proof {
            assert(chips@.take(i as int + 1).drop_last() =~= chips@.take(i as int));
            assert(chips@.take(i as int + 1).last() == chips@[i as int]);
        }
        if chips[i].0 == *c {
            return Some(i);
        }
    }
    None
}

/// Finds the metadata of the last table entry named `p`, if any.
fn table_lookup(t: &Vec<(String, PinMetadata)>, p: &String) -> (r: Option<PinMetadata>)
    ensures
        r == spec_table_lookup(t@, p@),
{
    let mut i: usize = t.len();
    proof {
        assert(t@.take(t@.len() as int) =~= t@);
    }
    while i > 0
        invariant
            i <= t@.len(),
            spec_table_lookup(t@, p@) == spec_table_lookup(t@.take(i as int), p@),
        decreases i,
    {
        i = i - 1;
        proof {
            assert(t@.take(i as int + 1).drop_last() =~= t@.take(i as int));
            assert(t@.take(i as int + 1).last() == t@[i as int]);
        }
        if t[i].0 == *p {
            return Some(t[i].1.clone());
        }
    }
    None
}

/// Finds the metadata snapshot the added chips hold for chip `c`, pin
/// `p`, if any.
fn md_of(chips: &Vec<ChipEntry>, c: &String, p: &String) -> (r: Option<PinMetadata>)
    ensures
        r == spec_md(chips@, (c@, p@)),
{
    match chip_index(chips, c) {
        Some(i) => table_lookup(&chips[i].1, p),
        None => None,
    }
}

/// Under a complete pin-existence check, every wire endpoint's metadata
/// is present.
proof fn lemma_endpoint_md_known(model: NetlistModel, chips: Seq<ChipEntry>)
    requires
        model.wf(),
        all_pins_known(model, chips),
    ensures
        forall|id: (Seq<char>, Seq<char>)|
            id_in_edges(model.connections@, id) ==> spec_md(chips, id) is Some,
{
    assert forall|id: (Seq<char>, Seq<char>)|
        id_in_edges(model.connections@, id) implies spec_md(chips, id) is Some by {
        let conns = model.connections@;
        let k = choose|k: int|
            0 <= k < conns.len() && ((conns[k].0)@ == id || (conns[k].1)@ == id);
        lemma_endpoint_pin_listed(conns, k);
        let c = id.0;
        let p = id.1;
        assert(chip_declared(model.chips@, c));
        let i = choose|i: int| 0 <= i < model.chips@.len() && model.chips@[i]@ == c;
        assert(names_view(model.chip_pins@[i]@) == spec_pins_of(conns, model.chips@[i]@));
        assert(spec_pins_of(conns, c).contains(p));
        let j = choose|j: int|
            0 <= j < spec_pins_of(conns, c).len() && spec_pins_of(conns, c)[j] == p;
        assert(names_view(model.chip_pins@[i]@)[j] == model.chip_pins@[i]@[j]@);
        assert(model.chip_pins@[i]@[j]@ == p);
        assert(spec_md(chips, (model.chips@[i]@, model.chip_pins@[i]@[j]@)) is Some);
    };
}

/// The netlist builder: one in-progress build of one design, owning its
/// model and the chip instances added so far.
#[derive(Debug)]
pub struct NetlistBuilder {
    pub model: NetlistModel,
    pub chips: Vec<ChipEntry>,
}

impl NetlistBuilder {
    /// Starts a build of the given design model with no chips added yet.
    pub fn new(model: NetlistModel) -> (r: Self)
        ensures
            r.model == model,
            r.chips@.len() == 0,
    {
        NetlistBuilder { model, chips: Vec::new() }
    }

    /// Adds a chip instance under `name`, handing over the pin table the
    /// chip reports.  Adding the same name again replaces the earlier
    /// instance: the last write wins.
    pub fn add_chip(self, name: String, pins: Vec<(String, PinMetadata)>) -> (r: Self)
        ensures
            r.model == self.model,
            r.chips@ == self.chips@.push((name, pins)),
    {
        let mut b = self;
        b.chips.push((name, pins));
        b
    }

    /// Validates the accumulated design and produces the finished
    /// netlist, or the first violation found.  The checks run in order:
    /// every declared chip must have an instance, every referenced pin
    /// must exist on its chip, every wire must join compatible pins, and
    /// every group of shorted pins must classify under the electrical
    /// rules.
    pub fn build(&self) -> (r: Result<FinishedNetlist, BuildError>)
        requires
            self.model.wf(),
        ensures
            match r {
                Ok(n) => build_ok(self.model, self.chips@, n),
                Err(e) => build_err(self.model, self.chips@, e),
            },
    {
        let model = &self.model;
        // every declared chip has an added instance
        let mut i: usize = 0;
        while i < model.chips.len()
            invariant
                i <= model.chips@.len(),
                forall|t: int|
                    0 <= t < i ==> spec_chip_lookup(
                        self.chips@,
                        (#[trigger] model.chips@[t])@,
                    ) is Some,
                model == self.model,
            decreases model.chips@.len() - i,
        {
            if chip_index(&self.chips, &model.chips[i]).is_none() {
                proof {
                    assert(missing_at(*model, self.chips@, i as int));
                    assert(build_err(*model, self.chips@, BuildError::MissingChip(
                        model.chips@[i as int],
                    )));
                }
                return Err(BuildError::MissingChip(model.chips[i].clone()));
            }
            i = i + 1;
        }
        // every referenced pin exists on its chip
        let mut i2: usize = 0;
        while i2 < model.chips.len()
            invariant
                i2 <= model.chips@.len(),
                model == self.model,
                self.model.wf(),
                all_chips_added(*model, self.chips@),
                forall|a: int, b: int|
                    0 <= a < i2 && 0 <= b < model.chip_pins@[a]@.len() ==> spec_md(
                        self.chips@,
                        ((#[trigger] model.chips@[a])@, (#[trigger] model.chip_pins@[a]@[b])@),
                    ) is Some,
            decreases model.chips@.len() - i2,
        {
            let mut j: usize = 0;
            while j < model.chip_pins[i2].len()
                invariant
                    i2 < model.chips@.len(),
                    model.chips@.len() == model.chip_pins@.len(),
                    j <= model.chip_pins@[i2 as int]@.len(),
                    model == self.model,
                    self.model.wf(),
                    all_chips_added(*model, self.chips@),
                    forall|a: int, b: int|
                        0 <= a < i2 && 0 <= b < model.chip_pins@[a]@.len() ==> spec_md(
                            self.chips@,
                            ((#[trigger] model.chips@[a])@, (#[trigger] model.chip_pins@[a]@[b])@),
                        ) is Some,
                    forall|b: int|
                        0 <= b < j ==> spec_md(
                            self.chips@,
                            (model.chips@[i2 as int]@, (#[trigger] model.chip_pins@[i2 as int]@[b])@),
                        ) is Some,
                decreases model.chip_pins@[i2 as int]@.len() - j,
            {
                if md_of(&self.chips, &model.chips[i2], &model.chip_pins[i2][j]).is_none() {
                    proof {
                        assert(unknown_at(*model, self.chips@, i2 as int, j as int));
                        assert(build_err(*model, self.chips@, BuildError::UnknownPin(
                            model.chips@[i2 as int],
                            model.chip_pins@[i2 as int]@[j as int],
                        )));
                    }
                    return Err(BuildError::UnknownPin(
                        model.chips[i2].clone(),
                        model.chip_pins[i2][j].clone(),
                    ));
                }
                j = j + 1;
            }
            i2 = i2 + 1;
        }
        proof {
            assert(all_pins_known(*model, self.chips@));
            lemma_endpoint_md_known(*model, self.chips@);
        }
        // every wire joins compatible pins
        let mut k: usize = 0;
        while k < model.connections.len()
            invariant
                k <= model.connections@.len(),
                model == self.model,
                self.model.wf(),
                all_chips_added(*model, self.chips@),
                all_pins_known(*model, self.chips@),
                forall|id: (Seq<char>, Seq<char>)|
                    id_in_edges(model.connections@, id) ==> spec_md(self.chips@, id) is Some,
                forall|t: int|
                    0 <= t < k ==> edge_pair_ok(self.chips@, #[trigger] model.connections@[t]),
            decreases model.connections@.len() - k,
        {
            let e0 = &model.connections[k].0;
            let e1 = &model.connections[k].1;
            proof {
                assert(id_in_edges(model.connections@, model.connections@[k as int].0@));
                assert(id_in_edges(model.connections@, model.connections@[k as int].1@));
            }
            let md0 = match md_of(&self.chips, &e0.chip, &e0.pin) {
                Some(md) => md,
                None => {
                    proof {
                        assert(false);
                    }
                    return Err(BuildError::MissingChip(e0.chip.clone()));
                },
            };
            let md1 = match md_of(&self.chips, &e1.chip, &e1.pin) {
                Some(md) => md,
                None => {
                    proof {
                        assert(false);
                    }
                    return Err(BuildError::MissingChip(e1.chip.clone()));
                },
            };
            if !pins_compatible(&md0, &md1) {
                proof {
                    assert(incompatible_at(*model, self.chips@, k as int));
                    assert(build_err(*model, self.chips@, BuildError::IncompatiblePins(
                        model.connections@[k as int].0,
                        model.connections@[k as int].1,
                    )));
                }
                return Err(BuildError::IncompatiblePins(e0.clone(), e1.clone()));
            }
            k = k + 1;
        }
        // group the shorted pins and classify every group
        let groups = group_connected_pins(&self.model.connections);
        let mut out: Vec<ConnectedPins> = Vec::new();
        let ghost mut members_all: Seq<Seq<(ChipPin, PinMetadata)>> = Seq::empty();
        let mut g: usize = 0;
        while g < groups.len()
            invariant
                g <= groups@.len(),
                model == self.model,
                self.model.wf(),
                all_chips_added(*model, self.chips@),
                all_pins_known(*model, self.chips@),
                all_edges_compatible(*model, self.chips@),
                forall|id: (Seq<char>, Seq<char>)|
                    id_in_edges(model.connections@, id) ==> spec_md(self.chips@, id) is Some,
                valid_grouping(groups@, model.connections@),
                out@.len() == g,
                members_all.len() == g,
                forall|t: int|
                    0 <= t < g ==> (#[trigger] members_all[t]).len() == groups@[t]@.len(),
                forall|t: int, m: int|
                    0 <= t < g && 0 <= m < groups@[t]@.len() ==> (#[trigger] members_all[t][m]).0
                        == groups@[t]@[m] && spec_md(self.chips@, groups@[t]@[m]@) == Some(
                        members_all[t][m].1,
                    ),
                forall|t: int|
                    0 <= t < g ==> classify_matches(#[trigger] members_all[t], Ok(out@[t])),
            decreases groups@.len() - g,
        {
            let grp = &groups[g];
            let mut members: Vec<(ChipPin, PinMetadata)> = Vec::new();
            let mut m: usize = 0;
            while m < grp.len()
                invariant
                    m <= grp@.len(),
                    g < groups@.len(),
                    grp == groups@[g as int],
                    model == self.model,
                    valid_grouping(groups@, model.connections@),
                    forall|id: (Seq<char>, Seq<char>)|
                        id_in_edges(model.connections@, id) ==> spec_md(self.chips@, id) is Some,
                    members@.len() == m,
                    forall|t: int|
                        0 <= t < m ==> (#[trigger] members@[t]).0 == grp@[t] && spec_md(
                            self.chips@,
                            grp@[t]@,
                        ) == Some(members@[t].1),
                decreases grp@.len() - m,
            {
                proof {
                    assert(id_in_edges(model.connections@, (groups@[g as int]@[m as int])@));
                }
                let md = match md_of(&self.chips, &grp[m].chip, &grp[m].pin) {
                    Some(md) => md,
                    None => {
                        proof {
                            assert(false);
                        }
                        return Err(BuildError::MissingChip(grp[m].chip.clone()));
                    },
                };
                members.push((grp[m].clone(), md));
                m = m + 1;
            }
            proof {
                assert(groups@[g as int]@.len() >= 2);
            }
            match classify_group(&members) {
                Ok(cp) => {
                    out.push(cp);
                    proof {
                        members_all = members_all.push(members@);
                    }
                },
                Err(e) => {
                    proof {
                        assert(group_members_md(*model, self.chips@, groups@, g as int, members@));
                        assert(failing_group(*model, self.chips@, members@));
                        assert(classify_matches(members@, Err(e)));
                        assert(exists|ms: Seq<(ChipPin, PinMetadata)>|
                            failing_group(*model, self.chips@, ms) && classify_matches(
                                ms,
                                Err(e),
                            ));
                        assert(build_err(*model, self.chips@, e));
                    }
                    return Err(e);
                },
            }
            g = g + 1;
        }
        // copy the exposed pins into the finished netlist
        let mut exposed: Vec<ChipPin> = Vec::new();
        let mut x: usize = 0;
        while x < model.exposed.len()
            invariant
                x <= model.exposed@.len(),
                model == self.model,
                exposed@.len() == x,
                forall|t: int| 0 <= t < x ==> (#[trigger] exposed@[t]) == model.exposed@[t],
            decreases model.exposed@.len() - x,
        {
            exposed.push(model.exposed[x].clone());
            x = x + 1;
        }
        proof {
            assert(exposed@ =~= model.exposed@);
        }
        let n = FinishedNetlist { connections: out, exposed };
        proof {
            assert(built_groups_ok(*model, self.chips@, groups@, members_all, n.connections@));
            assert(exists|gs: Seq<Vec<ChipPin>>, ms: Seq<Seq<(ChipPin, PinMetadata)>>|
                built_groups_ok(*model, self.chips@, gs, ms, n.connections@));
        }
        Ok(n)
    }
}

} // verus!
