//! Per-frame classification values exchanged between the pipeline stages,
//! and the fixed registry of tracked screen regions ("components").

use vstd::prelude::*;

verus! {

/// The ternary confidence classification of one frame's raw detection
/// signal, without the detector's payload.
#[derive(Debug, Clone, Copy, PartialEq, Eq, Structural)]
pub enum DetectionKind {
    Found,
    Possible,
    Absent,
}

/// One frame's raw detection signal for one component. `P` is the opaque
/// payload a detector may attach for that same component's text extractor.
#[derive(Debug)]
pub enum Detection<P> {
    Found(Option<P>),
    Possible(Option<P>),
    Absent,
}

impl<P> Detection<P> {
    pub fn kind(&self) -> (r: DetectionKind)
        ensures
            r == (match self {
                Detection::Found(_) => DetectionKind::Found,
                Detection::Possible(_) => DetectionKind::Possible,
                Detection::Absent => DetectionKind::Absent,
            }),
    {
        match self {
            Detection::Found(_) => DetectionKind::Found,
            Detection::Possible(_) => DetectionKind::Possible,
            Detection::Absent => DetectionKind::Absent,
        }
    }
}

/// A frame's detection once the hysteresis has resolved it: the undecided
/// `Possible` state is gone.
#[derive(Debug)]
pub enum AccumDetection<P> {
    Found(Option<P>),
    Absent,
}

impl<P> AccumDetection<P> {
    pub fn is_found(&self) -> (r: bool)
        ensures
            r == (self is Found),
    {
        match self {
            AccumDetection::Found(_) => true,
            AccumDetection::Absent => false,
        }
    }
}

/// Which language-specific correction a text slot's raw OCR output goes
/// through before it counts as exact.
#[derive(Debug, Clone, Copy, PartialEq, Eq, Structural)]
pub enum PostProcess {
    Plain,
    ItemText,
    ItemCount,
    Digits,
}

/// How the text is laid out within its slot's rectangle.
#[derive(Debug, Clone, Copy, PartialEq, Eq, Structural)]
pub enum TextAlign {
    Left,
    Right,
    Center,
    Unspecified,
}

/// One value of type `T` for each tracked component: the single main item
/// region and the fixed column of side item regions.
#[derive(Debug, Clone, Copy)]
pub struct ComponentContainer<T> {
    pub main_item: T,
    pub side_item: [T; 10],
}

/// How many components the registry tracks.
pub const COMPONENT_COUNT: usize = 11;

/// The stable name of the component numbered `i`.
pub open spec fn component_name_spec(i: int) -> Seq<char> {
    if i == 0 {
        "main_item"@
    } else if i == 1 {
        "side_item0"@
    } else if i == 2 {
        "side_item1"@
    } else if i == 3 {
        "side_item2"@
    } else if i == 4 {
        "side_item3"@
    } else if i == 5 {
        "side_item4"@
    } else if i == 6 {
        "side_item5"@
    } else if i == 7 {
        "side_item6"@
    } else if i == 8 {
        "side_item7"@
    } else if i == 9 {
        "side_item8"@
    } else {
        "side_item9"@
    }
}

/// The stable name of the component numbered `i`.
pub fn component_name(i: usize) -> (r: &'static str)
    requires
        i < COMPONENT_COUNT,
    ensures
        r@ == component_name_spec(i as int),
{
    match i {
        0 => "main_item",
        1 => "side_item0",
        2 => "side_item1",
        3 => "side_item2",
        4 => "side_item3",
        5 => "side_item4",
        6 => "side_item5",
        7 => "side_item6",
        8 => "side_item7",
        9 => "side_item8",
        _ => "side_item9",
    }
}

impl<T> ComponentContainer<T> {
    /// The components in their fixed order: the main item first, then the
    /// side items top of the column last.
    pub open spec fn seq(self) -> Seq<T> {
        seq![
            self.main_item,
            self.side_item[0],
            self.side_item[1],
            self.side_item[2],
            self.side_item[3],
            self.side_item[4],
            self.side_item[5],
            self.side_item[6],
            self.side_item[7],
            self.side_item[8],
            self.side_item[9],
        ]
    }

    /// Builds one value per component, handing each component's stable name
    /// to `f`.
    pub fn from_fn<F: Fn(&'static str) -> T>(f: F) -> (r: ComponentContainer<T>)
        requires
            forall|name: &'static str| #[trigger] f.requires((name,)),
        ensures
            r.seq().len() == COMPONENT_COUNT,
            forall|i: int|
                #![trigger r.seq()[i]]
                0 <= i < COMPONENT_COUNT ==> exists|name: &'static str|
                    name@ == component_name_spec(i) && #[trigger] f.ensures((name,), r.seq()[i]),
    {
        ComponentContainer {
            main_item: f("main_item"),
            side_item: [
                f("side_item0"),
                f("side_item1"),
                f("side_item2"),
                f("side_item3"),
                f("side_item4"),
                f("side_item5"),
                f("side_item6"),
                f("side_item7"),
                f("side_item8"),
                f("side_item9"),
            ],
        }
    }

    /// The components in their fixed order, by reference.
    pub fn iter(&self) -> (r: Vec<&T>)
        ensures
            r@.len() == COMPONENT_COUNT,
            forall|i: int| 0 <= i < r@.len() ==> *r@[i] == self.seq()[i],
    {
        let mut v: Vec<&T> = Vec::new();
        v.push(&self.main_item);
        v.push(&self.side_item[0]);
        v.push(&self.side_item[1]);
        v.push(&self.side_item[2]);
        v.push(&self.side_item[3]);
        v.push(&self.side_item[4]);
        v.push(&self.side_item[5]);
        v.push(&self.side_item[6]);
        v.push(&self.side_item[7]);
        v.push(&self.side_item[8]);
        v.push(&self.side_item[9]);
        v
    }

}

} // verus!
