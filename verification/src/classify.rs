//! The connection classifier: enforces the electrical rules on each group
//! of shorted pins and emits the group's canonical shape — a direct pair,
//! a single-driver broadcast, or a multi-driver tristated bus.

use vstd::prelude::*;

use crate::pins::BuildError;
use crate::pins::ChipPin;
use crate::pins::ConnectedPins;
use crate::pins::PinMetadata;
use crate::pins::PinType;

verus! {

/// The pins of a group's members typed `Output`, in group order.
pub open spec fn spec_outputs(ms: Seq<(ChipPin, PinMetadata)>) -> Seq<ChipPin>
    decreases ms.len(),
{
    if ms.len() == 0 {
        Seq::empty()
    } else {
        let rest = spec_outputs(ms.drop_last());
        if ms.last().1.pin_type == PinType::Output {
            rest.push(ms.last().0)
        } else {
            rest
        }
    }
}

/// The pins of a group's members not typed `Output` — the receivers:
/// `Input` members directly, and `IO` members by elimination — in group
/// order.
pub open spec fn spec_receivers(ms: Seq<(ChipPin, PinMetadata)>) -> Seq<ChipPin>
    decreases ms.len(),
{
    if ms.len() == 0 {
        Seq::empty()
    } else {
        let rest = spec_receivers(ms.drop_last());
        if ms.last().1.pin_type == PinType::Output {
            rest
        } else {
            rest.push(ms.last().0)
        }
    }
}

/// The identities of all of a group's members, in group order.
pub open spec fn member_pins(ms: Seq<(ChipPin, PinMetadata)>) -> Seq<ChipPin>
    decreases ms.len(),
{
    if ms.len() == 0 {
        Seq::empty()
    } else {
        member_pins(ms.drop_last()).push(ms.last().0)
    }
}

/// Whether every member of a group may enter a high-impedance state.
pub open spec fn all_tristatable(ms: Seq<(ChipPin, PinMetadata)>) -> bool
    decreases ms.len(),
{
    if ms.len() == 0 {
        true
    } else {
        all_tristatable(ms.drop_last()) && ms.last().1.tristatable
    }
}

/// Whether at least one member of a group may enter a high-impedance state.
pub open spec fn any_tristatable(ms: Seq<(ChipPin, PinMetadata)>) -> bool
    decreases ms.len(),
{
    if ms.len() == 0 {
        false
    } else {
        any_tristatable(ms.drop_last()) || ms.last().1.tristatable
    }
}

/// The per-pair compatibility rule: two directly wired pins are
/// compatible unless both are permanent (non-tristatable) drivers.
pub open spec fn spec_pins_compatible(a: PinMetadata, b: PinMetadata) -> bool {
    !(a.pin_type == PinType::Output && b.pin_type == PinType::Output && !a.tristatable
        && !b.tristatable)
}

/// Decides the per-pair compatibility rule for two wired pins.
pub fn pins_compatible(a: &PinMetadata, b: &PinMetadata) -> (r: bool)
    ensures
        r == spec_pins_compatible(*a, *b),
{
    !(matches!(a.pin_type, PinType::Output) && matches!(b.pin_type, PinType::Output)
        && !a.tristatable && !b.tristatable)
}

/// Exactly which result the classifier owes a finalized group `ms` of at
/// least two members.  A two-pin group becomes a pair driven by its first
/// `Output` member, or has no driver at all.  A larger group with several
/// drivers must be tristatable throughout; one that mixes tristatable and
/// non-tristatable members is rejected; otherwise its single driver
/// broadcasts to the receiving members, and a driverless group is
/// rejected.
pub open spec fn classify_matches(
    ms: Seq<(ChipPin, PinMetadata)>,
    r: Result<ConnectedPins, BuildError>,
) -> bool {
    if ms.len() == 2 {
        if spec_outputs(ms).len() == 0 {
            &&& r matches Err(BuildError::NoDriver(g))
            &&& g@ == member_pins(ms)
        } else if ms[0].1.pin_type == PinType::Output {
            r == Ok::<ConnectedPins, BuildError>(
                ConnectedPins::Pair { source: ms[0].0, destination: ms[1].0 },
            )
        } else {
            r == Ok::<ConnectedPins, BuildError>(
                ConnectedPins::Pair { source: ms[1].0, destination: ms[0].0 },
            )
        }
    } else {
        if spec_outputs(ms).len() > 1 && !all_tristatable(ms) {
            &&& r matches Err(BuildError::MultipleDriversWithoutTristate(g))
            &&& g@ == member_pins(ms)
        } else if any_tristatable(ms) && !all_tristatable(ms) {
            &&& r matches Err(BuildError::MixedTristateGroup(g))
            &&& g@ == member_pins(ms)
        } else if spec_outputs(ms).len() > 1 {
            &&& r matches Ok(ConnectedPins::Tristated { sources, destinations })
            &&& sources@ == spec_outputs(ms)
            &&& destinations@ == spec_receivers(ms)
        } else if spec_outputs(ms).len() == 1 {
            &&& r matches Ok(ConnectedPins::Broadcast { source, destinations })
            &&& source == spec_outputs(ms)[0]
            &&& destinations@ == spec_receivers(ms)
        } else {
            &&& r matches Err(BuildError::NoDriver(g))
            &&& g@ == member_pins(ms)
        }
    }
}

/// The pin identities a classified group names in its output: the
/// pair's two ends, or the driver side followed by the destinations.
pub open spec fn classified_pins(cp: ConnectedPins) -> Seq<ChipPin> {
    match cp {
        ConnectedPins::Pair { source, destination } => seq![source, destination],
        ConnectedPins::Broadcast { source, destinations } => seq![source] + destinations@,
        ConnectedPins::Tristated { sources, destinations } => sources@ + destinations@,
    }
}

/// The member list holds, position for position, each member's pin.
pub proof fn lemma_member_pins_index(ms: Seq<(ChipPin, PinMetadata)>)
    ensures
        member_pins(ms).len() == ms.len(),
        forall|j: int| 0 <= j < ms.len() ==> member_pins(ms)[j] == (#[trigger] ms[j]).0,
    decreases ms.len(),
{
    if ms.len() > 0 {
        lemma_member_pins_index(ms.drop_last());
        assert forall|j: int| 0 <= j < ms.len() implies member_pins(ms)[j] == (
        #[trigger] ms[j]).0 by {
            if j < ms.len() - 1 {
                assert(ms.drop_last()[j] == ms[j]);
                assert(member_pins(ms)[j] == member_pins(ms.drop_last())[j]);
            } else {
                assert(member_pins(ms)[j] == ms.last().0);
            }
        };
    }
}

/// Every member's pin stands in the member list.
proof fn lemma_member_pin_listed(ms: Seq<(ChipPin, PinMetadata)>, m: int)
    requires
        0 <= m < ms.len(),
    ensures
        member_pins(ms).contains(ms[m].0),
    decreases ms.len(),
{
    if m == ms.len() - 1 {
        assert(member_pins(ms).last() == ms[m].0);
        assert(member_pins(ms).contains(ms[m].0));
    } else {
        lemma_member_pin_listed(ms.drop_last(), m);
        assert(ms.drop_last()[m] == ms[m]);
        let i = choose|i: int|
            0 <= i < member_pins(ms.drop_last()).len() && member_pins(ms.drop_last())[i] == ms[m].0;
        assert(member_pins(ms)[i] == ms[m].0);
        assert(member_pins(ms).contains(ms[m].0));
    }
}

/// Every `Output` member's pin stands in the outputs list, and every
/// other member's pin in the receivers list.
proof fn lemma_member_in_side(ms: Seq<(ChipPin, PinMetadata)>, m: int)
    requires
        0 <= m < ms.len(),
    ensures
        ms[m].1.pin_type == PinType::Output ==> spec_outputs(ms).contains(ms[m].0),
        ms[m].1.pin_type != PinType::Output ==> spec_receivers(ms).contains(ms[m].0),
    decreases ms.len(),
{
    if m == ms.len() - 1 {
        if ms[m].1.pin_type == PinType::Output {
            assert(spec_outputs(ms).last() == ms[m].0);
            assert(spec_outputs(ms).contains(ms[m].0));
        } else {
            assert(spec_receivers(ms).last() == ms[m].0);
            assert(spec_receivers(ms).contains(ms[m].0));
        }
    } else {
        lemma_member_in_side(ms.drop_last(), m);
        assert(ms.drop_last()[m] == ms[m]);
        if ms[m].1.pin_type == PinType::Output {
            let i = choose|i: int|
                0 <= i < spec_outputs(ms.drop_last()).len() && spec_outputs(ms.drop_last())[i]
                    == ms[m].0;
            assert(spec_outputs(ms)[i] == ms[m].0);
            assert(spec_outputs(ms).contains(ms[m].0));
        } else {
            let i = choose|i: int|
                0 <= i < spec_receivers(ms.drop_last()).len() && spec_receivers(ms.drop_last())[i]
                    == ms[m].0;
            assert(spec_receivers(ms)[i] == ms[m].0);
            assert(spec_receivers(ms).contains(ms[m].0));
        }
    }
}

/// Every entry of the outputs and receivers lists is some member's pin.
proof fn lemma_side_from_members(ms: Seq<(ChipPin, PinMetadata)>, i: int)
    requires
        0 <= i < spec_outputs(ms).len() || 0 <= i < spec_receivers(ms).len(),
    ensures
        0 <= i < spec_outputs(ms).len() ==> member_pins(ms).contains(spec_outputs(ms)[i]),
        0 <= i < spec_receivers(ms).len() ==> member_pins(ms).contains(spec_receivers(ms)[i]),
    decreases ms.len(),
{
    if ms.len() > 0 {
        let dl = ms.drop_last();
        if 0 <= i < spec_outputs(ms).len() {
            if ms.last().1.pin_type == PinType::Output && i == spec_outputs(ms).len() - 1 {
                assert(spec_outputs(ms)[i] == ms.last().0);
                lemma_member_pin_listed(ms, ms.len() - 1);
            } else {
                assert(spec_outputs(ms)[i] == spec_outputs(dl)[i]);
                lemma_side_from_members(dl, i);
                let j = choose|j: int|
                    0 <= j < member_pins(dl).len() && member_pins(dl)[j] == spec_outputs(dl)[i];
                assert(member_pins(ms)[j] == spec_outputs(ms)[i]);
                assert(member_pins(ms).contains(spec_outputs(ms)[i]));
            }
        }
        if 0 <= i < spec_receivers(ms).len() {
            if ms.last().1.pin_type != PinType::Output && i == spec_receivers(ms).len() - 1 {
                assert(spec_receivers(ms)[i] == ms.last().0);
                lemma_member_pin_listed(ms, ms.len() - 1);
            } else {
                assert(spec_receivers(ms)[i] == spec_receivers(dl)[i]);
                lemma_side_from_members(dl, i);
                let j = choose|j: int|
                    0 <= j < member_pins(dl).len() && member_pins(dl)[j] == spec_receivers(dl)[i];
                assert(member_pins(ms)[j] == spec_receivers(ms)[i]);
                assert(member_pins(ms).contains(spec_receivers(ms)[i]));
            }
        }
    }
}

/// A successful classification loses no pin and invents none: its output
/// names exactly the pins of the group's members.
pub proof fn lemma_classification_preserves_members(
    ms: Seq<(ChipPin, PinMetadata)>,
    cp: ConnectedPins,
)
    requires
        ms.len() >= 2,
        classify_matches(ms, Ok(cp)),
    ensures
        forall|m: int| 0 <= m < ms.len() ==> classified_pins(cp).contains((#[trigger] ms[m]).0),
        forall|i: int|
            0 <= i < classified_pins(cp).len() ==> member_pins(ms).contains(
                #[trigger] classified_pins(cp)[i],
            ),
{
    match cp {
        ConnectedPins::Pair { source, destination } => {
            assert(ms.len() == 2);
            assert((source == ms[0].0 && destination == ms[1].0) || (source == ms[1].0
                && destination == ms[0].0));
            assert forall|m: int| 0 <= m < ms.len() implies classified_pins(cp).contains(
                (#[trigger] ms[m]).0,
            ) by {
                if ms[m].0 == source {
                    assert(classified_pins(cp)[0] == ms[m].0);
                } else {
                    assert(classified_pins(cp)[1] == ms[m].0);
                }
            };
            assert forall|i: int| 0 <= i < classified_pins(cp).len() implies member_pins(
                ms,
            ).contains(#[trigger] classified_pins(cp)[i]) by {
                lemma_member_pin_listed(ms, 0);
                lemma_member_pin_listed(ms, 1);
            };
        },
        ConnectedPins::Broadcast { source, destinations } => {
            assert(spec_outputs(ms).len() == 1);
            assert(source == spec_outputs(ms)[0]);
            assert(destinations@ == spec_receivers(ms));
            assert forall|m: int| 0 <= m < ms.len() implies classified_pins(cp).contains(
                (#[trigger] ms[m]).0,
            ) by {
                lemma_member_in_side(ms, m);
                if ms[m].1.pin_type == PinType::Output {
                    let i = choose|i: int|
                        0 <= i < spec_outputs(ms).len() && spec_outputs(ms)[i] == ms[m].0;
                    assert(i == 0);
                    assert(classified_pins(cp)[0] == ms[m].0);
                } else {
                    let i = choose|i: int|
                        0 <= i < spec_receivers(ms).len() && spec_receivers(ms)[i] == ms[m].0;
                    assert(classified_pins(cp)[i + 1] == ms[m].0);
                }
                assert(classified_pins(cp).contains(ms[m].0));
            };
            assert forall|i: int| 0 <= i < classified_pins(cp).len() implies member_pins(
                ms,
            ).contains(#[trigger] classified_pins(cp)[i]) by {
                if i == 0 {
                    assert(classified_pins(cp)[0] == spec_outputs(ms)[0]);
                    lemma_side_from_members(ms, 0);
                } else {
                    assert(classified_pins(cp)[i] == spec_receivers(ms)[i - 1]);
                    lemma_side_from_members(ms, i - 1);
                }
            };
        },
        ConnectedPins::Tristated { sources, destinations } => {
            assert(sources@ == spec_outputs(ms));
            assert(destinations@ == spec_receivers(ms));
            assert forall|m: int| 0 <= m < ms.len() implies classified_pins(cp).contains(
                (#[trigger] ms[m]).0,
            ) by {
                lemma_member_in_side(ms, m);
                if ms[m].1.pin_type == PinType::Output {
                    let i = choose|i: int|
                        0 <= i < spec_outputs(ms).len() && spec_outputs(ms)[i] == ms[m].0;
                    assert(classified_pins(cp)[i] == ms[m].0);
                } else {
                    let i = choose|i: int|
                        0 <= i < spec_receivers(ms).len() && spec_receivers(ms)[i] == ms[m].0;
                    assert(classified_pins(cp)[sources@.len() + i] == ms[m].0);
                }
                assert(classified_pins(cp).contains(ms[m].0));
            };
            assert forall|i: int| 0 <= i < classified_pins(cp).len() implies member_pins(
                ms,
            ).contains(#[trigger] classified_pins(cp)[i]) by {
                if i < sources@.len() {
                    assert(classified_pins(cp)[i] == spec_outputs(ms)[i]);
                    lemma_side_from_members(ms, i);
                } else {
                    assert(classified_pins(cp)[i] == spec_receivers(ms)[i - sources@.len()]);
                    lemma_side_from_members(ms, i - sources@.len());
                }
            };
        },
    }
}

/// A two-pin group with one `Output` and one `Input` member always
/// classifies as a pair whose source is the `Output` member.
pub proof fn lemma_pair_source_is_output(
    ms: Seq<(ChipPin, PinMetadata)>,
    r: Result<ConnectedPins, BuildError>,
    i: int,
)
    requires
        ms.len() == 2,
        0 <= i < 2,
        ms[i].1.pin_type == PinType::Output,
        ms[1 - i].1.pin_type == PinType::Input,
        classify_matches(ms, r),
    ensures
        r == Ok::<ConnectedPins, BuildError>(
            ConnectedPins::Pair { source: ms[i].0, destination: ms[1 - i].0 },
        ),
{
    reveal_with_fuel(spec_outputs, 4);
    assert(ms.drop_last().len() == 1);
    assert(ms.drop_last().last() == ms[0]);
    assert(ms.last() == ms[1]);
    assert(ms.drop_last().drop_last().len() == 0);
    assert(spec_outputs(ms.drop_last().drop_last()) == Seq::<ChipPin>::empty());
    if i == 0 {
        assert(spec_outputs(ms.drop_last()) == Seq::<ChipPin>::empty().push(ms[0].0));
        assert(spec_outputs(ms).len() == 1);
    } else {
        assert(spec_outputs(ms.drop_last()) == Seq::<ChipPin>::empty());
        assert(spec_outputs(ms) == Seq::<ChipPin>::empty().push(ms[1].0));
        assert(ms[0].1.pin_type != PinType::Output);
    }
}

/// A three-pin group with one `Output` member, two `Input` members and
/// no tristatable member classifies as a broadcast from the `Output`
/// member to the two `Input` members.
pub proof fn lemma_broadcast_single_driver(
    ms: Seq<(ChipPin, PinMetadata)>,
    r: Result<ConnectedPins, BuildError>,
    i: int,
)
    requires
        ms.len() == 3,
        0 <= i < 3,
        ms[i].1.pin_type == PinType::Output,
        forall|j: int| 0 <= j < 3 && j != i ==> (#[trigger] ms[j]).1.pin_type == PinType::Input,
        forall|j: int| 0 <= j < 3 ==> !(#[trigger] ms[j]).1.tristatable,
        classify_matches(ms, r),
    ensures
        r matches Ok(ConnectedPins::Broadcast { source, destinations }) && source == ms[i].0
            && destinations@ == spec_receivers(ms) && destinations@.len() == 2 && (forall|j: int|
            0 <= j < 3 && j != i ==> destinations@.contains((#[trigger] ms[j]).0)),
{
    reveal_with_fuel(spec_outputs, 5);
    reveal_with_fuel(spec_receivers, 5);
    reveal_with_fuel(any_tristatable, 5);
    reveal_with_fuel(all_tristatable, 5);
    let d2 = ms.drop_last();
    let d1 = d2.drop_last();
    let d0 = d1.drop_last();
    assert(d0.len() == 0);
    assert(d1.last() == ms[0] && d2.last() == ms[1] && ms.last() == ms[2]);
    assert(!any_tristatable(ms));
    if i == 0 {
        assert(spec_outputs(ms) =~= seq![ms[0].0]);
        assert(spec_receivers(ms) =~= seq![ms[1].0, ms[2].0]);
    } else if i == 1 {
        assert(spec_outputs(ms) =~= seq![ms[1].0]);
        assert(spec_receivers(ms) =~= seq![ms[0].0, ms[2].0]);
    } else {
        assert(spec_outputs(ms) =~= seq![ms[2].0]);
        assert(spec_receivers(ms) =~= seq![ms[0].0, ms[1].0]);
    }
    assert(spec_outputs(ms)[0] == ms[i].0);
    let destinations = (choose|source: ChipPin, destinations: Vec<ChipPin>|
        r == Ok::<ConnectedPins, BuildError>(
            ConnectedPins::Broadcast { source, destinations },
        )).1;
    assert forall|j: int| 0 <= j < 3 && j != i implies spec_receivers(ms).contains(
        (#[trigger] ms[j]).0,
    ) by {
        if i == 0 {
            if j == 1 {
                assert(spec_receivers(ms)[0] == ms[1].0);
            } else {
                assert(spec_receivers(ms)[1] == ms[2].0);
            }
        } else if i == 1 {
            if j == 0 {
                assert(spec_receivers(ms)[0] == ms[0].0);
            } else {
                assert(spec_receivers(ms)[1] == ms[2].0);
            }
        } else {
            if j == 0 {
                assert(spec_receivers(ms)[0] == ms[0].0);
            } else {
                assert(spec_receivers(ms)[1] == ms[1].0);
            }
        }
    };
}

/// A three-pin group with two `Output` members and one `Input` member,
/// every member tristatable, classifies as a tristated bus whose sources
/// are the two `Output` members and whose destination is the `Input`
/// member.
pub proof fn lemma_tristated_multi_driver(
    ms: Seq<(ChipPin, PinMetadata)>,
    r: Result<ConnectedPins, BuildError>,
    i1: int,
    i2: int,
)
    requires
        ms.len() == 3,
        0 <= i1 < i2 < 3,
        ms[i1].1.pin_type == PinType::Output,
        ms[i2].1.pin_type == PinType::Output,
        forall|j: int|
            0 <= j < 3 && j != i1 && j != i2 ==> (#[trigger] ms[j]).1.pin_type == PinType::Input,
        forall|j: int| 0 <= j < 3 ==> (#[trigger] ms[j]).1.tristatable,
        classify_matches(ms, r),
    ensures
        r matches Ok(ConnectedPins::Tristated { sources, destinations }) && sources@
            == spec_outputs(ms) && sources@.len() == 2 && sources@.contains(ms[i1].0)
            && sources@.contains(ms[i2].0) && destinations@ == spec_receivers(ms)
            && destinations@.len() == 1 && destinations@[0] == ms[3 - i1 - i2].0,
{
    reveal_with_fuel(spec_outputs, 5);
    reveal_with_fuel(spec_receivers, 5);
    reveal_with_fuel(any_tristatable, 5);
    reveal_with_fuel(all_tristatable, 5);
    let d2 = ms.drop_last();
    let d1 = d2.drop_last();
    let d0 = d1.drop_last();
    assert(d0.len() == 0);
    assert(d1.last() == ms[0] && d2.last() == ms[1] && ms.last() == ms[2]);
    assert(all_tristatable(ms));
    if i1 == 0 && i2 == 1 {
        assert(spec_outputs(ms) =~= seq![ms[0].0, ms[1].0]);
        assert(spec_receivers(ms) =~= seq![ms[2].0]);
    } else if i1 == 0 && i2 == 2 {
        assert(spec_outputs(ms) =~= seq![ms[0].0, ms[2].0]);
        assert(spec_receivers(ms) =~= seq![ms[1].0]);
    } else {
        assert(spec_outputs(ms) =~= seq![ms[1].0, ms[2].0]);
        assert(spec_receivers(ms) =~= seq![ms[0].0]);
    }
    assert(spec_outputs(ms).contains(ms[i1].0)) by {
        if spec_outputs(ms)[0] == ms[i1].0 {
        } else {
            assert(spec_outputs(ms)[1] == ms[i1].0);
        }
    };
    assert(spec_outputs(ms).contains(ms[i2].0)) by {
        if spec_outputs(ms)[0] == ms[i2].0 {
        } else {
            assert(spec_outputs(ms)[1] == ms[i2].0);
        }
    };
}

/// A group with several drivers and a member that cannot yield the bus
/// is rejected: every multi-driver group must be tristatable throughout.
pub proof fn lemma_multiple_drivers_need_tristate(
    ms: Seq<(ChipPin, PinMetadata)>,
    r: Result<ConnectedPins, BuildError>,
    i1: int,
    i2: int,
    t: int,
)
    requires
        ms.len() == 3,
        0 <= i1 < i2 < 3,
        ms[i1].1.pin_type == PinType::Output,
        ms[i2].1.pin_type == PinType::Output,
        0 <= t < 3,
        !ms[t].1.tristatable,
        classify_matches(ms, r),
    ensures
        r matches Err(BuildError::MultipleDriversWithoutTristate(g)) && g@ == member_pins(ms),
{
    reveal_with_fuel(spec_outputs, 5);
    reveal_with_fuel(all_tristatable, 5);
    let d2 = ms.drop_last();
    let d1 = d2.drop_last();
    let d0 = d1.drop_last();
    assert(d0.len() == 0);
    assert(d1.last() == ms[0] && d2.last() == ms[1] && ms.last() == ms[2]);
    assert(!all_tristatable(ms));
    if i1 == 0 && i2 == 1 {
        assert(spec_outputs(ms).len() >= 2);
    } else if i1 == 0 && i2 == 2 {
        assert(spec_outputs(ms).len() >= 2);
    } else {
        assert(spec_outputs(ms).len() >= 2);
    }
}

/// A group that mixes a tristatable member with a non-tristatable one is
/// rejected whenever it is not already rejected for having several
/// permanent drivers.
pub proof fn lemma_mixed_tristate_rejected(
    ms: Seq<(ChipPin, PinMetadata)>,
    r: Result<ConnectedPins, BuildError>,
    a: int,
    b: int,
)
    requires
        ms.len() == 3,
        0 <= a < 3,
        0 <= b < 3,
        ms[a].1.tristatable,
        !ms[b].1.tristatable,
        spec_outputs(ms).len() <= 1,
        classify_matches(ms, r),
    ensures
        r matches Err(BuildError::MixedTristateGroup(g)) && g@ == member_pins(ms),
{
    reveal_with_fuel(any_tristatable, 5);
    reveal_with_fuel(all_tristatable, 5);
    let d2 = ms.drop_last();
    let d1 = d2.drop_last();
    let d0 = d1.drop_last();
    assert(d0.len() == 0);
    assert(d1.last() == ms[0] && d2.last() == ms[1] && ms.last() == ms[2]);
    assert(any_tristatable(ms));
    assert(!all_tristatable(ms));
}

/// Classifies one finalized group of shorted pins, each member paired
/// with its metadata snapshot.
pub fn classify_group(members: &Vec<(ChipPin, PinMetadata)>) -> (r: Result<
    ConnectedPins,
    BuildError,
>)
    requires
        members@.len() >= 2,
    ensures
        classify_matches(members@, r),
{
    let mut outputs: Vec<ChipPin> = Vec::new();
    let mut receivers: Vec<ChipPin> = Vec::new();
    let mut all_pins: Vec<ChipPin> = Vec::new();
    let mut all_t: bool = true;
    let mut any_t: bool = false;
    let mut i: usize = 0;
    while i < members.len()
        invariant
            i <= members@.len(),
            outputs@ == spec_outputs(members@.take(i as int)),
            receivers@ == spec_receivers(members@.take(i as int)),
            all_pins@ == member_pins(members@.take(i as int)),
            all_t == all_tristatable(members@.take(i as int)),
            any_t == any_tristatable(members@.take(i as int)),
        decreases members@.len() - i,
    {
        proof {
            assert(members@.take(i as int + 1).drop_last() =~= members@.take(i as int));
            assert(members@.take(i as int + 1).last() == members@[i as int]);
        }
        if matches!(members[i].1.pin_type, PinType::Output) {
            outputs.push(members[i].0.clone());
        } else {
            receivers.push(members[i].0.clone());
        }
        all_pins.push(members[i].0.clone());
        all_t = all_t && members[i].1.tristatable;
        any_t = any_t || members[i].1.tristatable;
        i = i + 1;
    }
    proof {
        assert(members@.take(members@.len() as int) =~= members@);
    }
    if members.len() == 2 {
        if outputs.len() == 0 {
            Err(BuildError::NoDriver(all_pins))
        } else if matches!(members[0].1.pin_type, PinType::Output) {
            Ok(
                ConnectedPins::Pair {
                    source: members[0].0.clone(),
                    destination: members[1].0.clone(),
                },
            )
        } else {
            Ok(
                ConnectedPins::Pair {
                    source: members[1].0.clone(),
                    destination: members[0].0.clone(),
                },
            )
        }
    } else {
        if outputs.len() > 1 && !all_t {
            Err(BuildError::MultipleDriversWithoutTristate(all_pins))
        } else if any_t && !all_t {
            Err(BuildError::MixedTristateGroup(all_pins))
        } else if outputs.len() > 1 {
            Ok(ConnectedPins::Tristated { sources: outputs, destinations: receivers })
        } else if outputs.len() == 1 {
            let source = outputs[0].clone();
            Ok(ConnectedPins::Broadcast { source, destinations: receivers })
        } else {
            Err(BuildError::NoDriver(all_pins))
        }
    }
}

} // verus!
