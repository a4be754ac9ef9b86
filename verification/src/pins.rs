//! The data shapes exchanged between a chip and the core: pin identity,
//! pin direction, pin metadata, the classified connection groups, and the
//! diagnostics a failed build reports.

use vstd::prelude::*;

verus! {

/// Direction of a pin, declared once by the chip that owns it.
#[derive(Debug, Clone, Copy, PartialEq, Eq, Structural)]
pub enum PinType {
    Input,
    Output,
    IO,
}

/// Identity of a single pin: the owning chip instance's name and the
/// pin's name.  Two values with the same view name the same pin.
#[derive(Debug, PartialEq, Eq, Hash)]
pub struct ChipPin {
    pub chip: String,
    pub pin: String,
}

impl View for ChipPin {
    type V = (Seq<char>, Seq<char>);

    open spec fn view(&self) -> (Seq<char>, Seq<char>) {
        (self.chip@, self.pin@)
    }
}

impl Clone for ChipPin {
    fn clone(&self) -> (r: Self)
        ensures
            r == *self,
    {
        ChipPin { chip: self.chip.clone(), pin: self.pin.clone() }
    }
}

/// Decides whether two pin identities name the same pin.
pub fn pin_eq(a: &ChipPin, b: &ChipPin) -> (r: bool)
    ensures
        r == (a@ == b@),
{
    a.chip == b.chip && a.pin == b.pin
}

/// Attributes of a pin as seen by the core: its direction, an opaque
/// value-type tag used only for diagnostics, and whether the pin may
/// enter a high-impedance (non-driving) state.
#[derive(Debug, PartialEq, Eq)]
pub struct PinMetadata {
    pub pin_type: PinType,
    pub data_type: String,
    pub tristatable: bool,
}

impl Clone for PinMetadata {
    fn clone(&self) -> (r: Self)
        ensures
            r == *self,
    {
        PinMetadata {
            pin_type: self.pin_type,
            data_type: self.data_type.clone(),
            tristatable: self.tristatable,
        }
    }
}

/// A classified group of electrically joined pins.
#[derive(Debug, PartialEq, Eq)]
pub enum ConnectedPins {
    /// Exactly two pins, one driving the other.
    Pair { source: ChipPin, destination: ChipPin },
    /// One permanent driver feeding two or more receivers, none tristatable.
    Broadcast { source: ChipPin, destinations: Vec<ChipPin> },
    /// Two or more potential drivers sharing a bus, every member tristatable.
    Tristated { sources: Vec<ChipPin>, destinations: Vec<ChipPin> },
}

/// The first rule a design violated.  Every error is terminal: no partial
/// netlist is ever produced.
#[derive(Debug, PartialEq, Eq)]
pub enum BuildError {
    /// A connection or expose statement references a chip never declared.
    UndeclaredChip(String),
    /// A pin is wired to itself.
    SelfConnection(ChipPin),
    /// A declared chip was never supplied an instance at build time.
    MissingChip(String),
    /// A referenced pin is absent from its chip's reported pin list.
    UnknownPin(String, String),
    /// Two directly wired pins are both permanent (non-tristatable) drivers.
    IncompatiblePins(ChipPin, ChipPin),
    /// A shorted group has several drivers but not every member can yield
    /// the bus electrically.
    MultipleDriversWithoutTristate(Vec<ChipPin>),
    /// A shorted group mixes tristatable and non-tristatable members.
    MixedTristateGroup(Vec<ChipPin>),
    /// A shorted group has no driver at all.
    NoDriver(Vec<ChipPin>),
}

/// The textual form of a pin list: each pin as `chip::pin`, the entries
/// separated by commas.
pub open spec fn spec_pin_list(ps: Seq<ChipPin>) -> Seq<char>
    decreases ps.len(),
{
    if ps.len() == 0 {
        Seq::empty()
    } else if ps.len() == 1 {
        ps[0].chip@ + "::"@ + ps[0].pin@
    } else {
        spec_pin_list(ps.drop_last()) + ", "@ + ps.last().chip@ + "::"@ + ps.last().pin@
    }
}

/// Renders a pin list for a diagnostic.
fn render_pin_list(ps: &Vec<ChipPin>) -> (r: String)
    ensures
        r@ == spec_pin_list(ps@),
{
    let mut s: String = "".to_owned();
    proof {
        reveal_strlit("");
        assert(s@ =~= Seq::<char>::empty());
    }
    let mut i: usize = 0;
    while i < ps.len()
        invariant
            i <= ps@.len(),
            s@ == spec_pin_list(ps@.take(i as int)),
        decreases ps@.len() - i,
    {
        proof {
            assert(ps@.take(i as int + 1).drop_last() =~= ps@.take(i as int));
            assert(ps@.take(i as int + 1).last() == ps@[i as int]);
        }
        if i > 0 {
            s.append(", ");
        }
        s.append(ps[i].chip.as_str());
        s.append("::");
        s.append(ps[i].pin.as_str());
        proof {
            assert(s@ =~= spec_pin_list(ps@.take(i as int + 1)));
        }
        i = i + 1;
    }
    proof {
        assert(ps@.take(ps@.len() as int) =~= ps@);
    }
    s
}

/// The text that `describe` owes each diagnostic.
pub open spec fn spec_describe(e: BuildError) -> Seq<char> {
    match e {
        BuildError::UndeclaredChip(c) => "use of undeclared chip "@ + c@,
        BuildError::SelfConnection(p) => "pin wired to itself: "@ + p.chip@ + "::"@ + p.pin@,
        BuildError::MissingChip(c) => "chip "@ + c@ + " defined in pcb design, but not added"@,
        BuildError::UnknownPin(c, p) => "chip "@ + c@ + " has no pin named "@ + p@,
        BuildError::IncompatiblePins(a, b) => "cannot connect "@ + a.chip@ + "::"@ + a.pin@
            + " to "@ + b.chip@ + "::"@ + b.pin@,
        BuildError::MultipleDriversWithoutTristate(g) => "multiple output pins in a group that is not tristatable throughout: "@
            + spec_pin_list(g@),
        BuildError::MixedTristateGroup(g) => "shorted pins mix tristatable and non-tristatable members: "@
            + spec_pin_list(g@),
        BuildError::NoDriver(g) => "shorted pins have no driver: "@ + spec_pin_list(g@),
    }
}

impl BuildError {
    /// A human-readable explanation of the diagnostic, naming the
    /// offending chip and pin identities where the rule has them.
    pub fn describe(&self) -> (r: String)
        ensures
            r@ == spec_describe(*self),
    {
        match self {
            BuildError::UndeclaredChip(c) => {
                let mut s: String = "use of undeclared chip ".to_owned();
                s.append(c.as_str());
                s
            },
            BuildError::SelfConnection(p) => {
                let mut s: String = "pin wired to itself: ".to_owned();
                s.append(p.chip.as_str());
                s.append("::");
                s.append(p.pin.as_str());
                s
            },
            BuildError::MissingChip(c) => {
                let mut s: String = "chip ".to_owned();
                s.append(c.as_str());
                s.append(" defined in pcb design, but not added");
                s
            },
            BuildError::UnknownPin(c, p) => {
                let mut s: String = "chip ".to_owned();
                s.append(c.as_str());
                s.append(" has no pin named ");
                s.append(p.as_str());
                s
            },
            BuildError::IncompatiblePins(a, b) => {
                let mut s: String = "cannot connect ".to_owned();
                s.append(a.chip.as_str());
                s.append("::");
                s.append(a.pin.as_str());
                s.append(" to ");
                s.append(b.chip.as_str());
                s.append("::");
                s.append(b.pin.as_str());
                s
            },
            BuildError::MultipleDriversWithoutTristate(g) => {
                let mut s: String =
                    "multiple output pins in a group that is not tristatable throughout: ".to_owned();
                s.append(render_pin_list(g).as_str());
                s
            },
            BuildError::MixedTristateGroup(g) => {
                let mut s: String =
                    "shorted pins mix tristatable and non-tristatable members: ".to_owned();
                s.append(render_pin_list(g).as_str());
                s
            },
            BuildError::NoDriver(g) => {
                let mut s: String = "shorted pins have no driver: ".to_owned();
                s.append(render_pin_list(g).as_str());
                s
            },
        }
    }
}

/// Reads a pin direction from its textual form in a chip declaration.
pub open spec fn spec_pin_type_from(s: Seq<char>) -> Option<PinType> {
    if s == "input"@ {
        Some(PinType::Input)
    } else if s == "output"@ {
        Some(PinType::Output)
    } else if s == "io"@ {
        Some(PinType::IO)
    } else {
        None
    }
}

/// Parses the textual direction name attached to a pin declaration.
pub fn pin_type_from_str(s: &String) -> (r: Option<PinType>)
    ensures
        r == spec_pin_type_from(s@),
{
    if *s == "input".to_owned() {
        Some(PinType::Input)
    } else if *s == "output".to_owned() {
        Some(PinType::Output)
    } else if *s == "io".to_owned() {
        Some(PinType::IO)
    } else {
        None
    }
}

/// Whether a pin's declared value type marks it tristatable: a pin is
/// tristatable exactly when its value type is the standard optional type,
/// named plainly, through the `option` module, or fully qualified.
pub open spec fn spec_path_is_option(segs: Seq<Seq<char>>) -> bool {
    if segs.len() >= 3 {
        segs[0] == "std"@ && segs[1] == "option"@ && segs[2] == "Option"@
    } else if segs.len() >= 2 {
        segs[0] == "option"@ && segs[1] == "Option"@
    } else if segs.len() >= 1 {
        segs[0] == "Option"@
    } else {
        false
    }
}

/// Decides tristatability from the path segments of a pin's declared
/// value type.
pub fn tristatable_from_path(segments: &Vec<String>) -> (r: bool)
    ensures
        r == spec_path_is_option(segments@.map_values(|s: String| s@)),
{
    let ghost segs = segments@.map_values(|s: String| s@);
    if segments.len() >= 3 {
        let r = segments[0] == "std".to_owned() && segments[1] == "option".to_owned()
            && segments[2] == "Option".to_owned();
        proof {
            assert(segs[0] == segments@[0]@);
            assert(segs[1] == segments@[1]@);
            assert(segs[2] == segments@[2]@);
        }
        r
    } else if segments.len() >= 2 {
        let r = segments[0] == "option".to_owned() && segments[1] == "Option".to_owned();
        proof {
            assert(segs[0] == segments@[0]@);
            assert(segs[1] == segments@[1]@);
        }
        r
    } else if segments.len() >= 1 {
        let r = segments[0] == "Option".to_owned();
        proof {
            assert(segs[0] == segments@[0]@);
        }
        r
    } else {
        false
    }
}

} // verus!
