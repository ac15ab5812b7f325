//! The style model: the configuration vocabulary a flex container and
//! its items are described with.

use vstd::prelude::*;
use crate::geometry::{Rect, Size};
use crate::number::Number;

verus! {

/// Whether a node takes part in layout at all; a hidden node is
/// removed from its parent's layout.
#[derive(Clone, Copy, Debug, PartialEq, Eq, Structural)]
pub enum Display {
    Flex,
    Hidden,
}

/// Whether an item flows with its siblings or is positioned by insets
/// against its containing block.
#[derive(Clone, Copy, Debug, PartialEq, Eq, Structural)]
pub enum PositionType {
    Relative,
    Absolute,
}

/// Inline direction, which decides how `start`/`end` edges map to
/// left/right.
#[derive(Clone, Copy, Debug, PartialEq, Eq, Structural)]
pub enum Direction {
    Ltr,
    Rtl,
}

/// The main axis of a flex container.
#[derive(Clone, Copy, Debug, PartialEq, Eq, Structural)]
pub enum FlexDirection {
    Row,
    RowReverse,
    Column,
    ColumnReverse,
}

/// Whether items wrap onto further lines.
#[derive(Clone, Copy, Debug, PartialEq, Eq, Structural)]
pub enum FlexWrap {
    NoWrap,
    Wrap,
    WrapReverse,
}

/// Distribution of free main-axis space among the items of a line.
#[derive(Clone, Copy, Debug, PartialEq, Eq, Structural)]
pub enum JustifyContent {
    FlexStart,
    FlexEnd,
    Center,
    SpaceBetween,
    SpaceAround,
    SpaceEvenly,
}

/// Cross-axis alignment of the items within a line.
#[derive(Clone, Copy, Debug, PartialEq, Eq, Structural)]
pub enum AlignItems {
    FlexStart,
    FlexEnd,
    Center,
    Baseline,
    Stretch,
}

/// Per-item override of the parent's [`AlignItems`]; `Auto` inherits.
#[derive(Clone, Copy, Debug, PartialEq, Eq, Structural)]
pub enum AlignSelf {
    Auto,
    FlexStart,
    FlexEnd,
    Center,
    Baseline,
    Stretch,
}

/// Distribution of free cross-axis space among the lines.
#[derive(Clone, Copy, Debug, PartialEq, Eq, Structural)]
pub enum AlignContent {
    FlexStart,
    FlexEnd,
    Center,
    Stretch,
    SpaceBetween,
    SpaceAround,
}

/// A style length.  `Points` is an absolute length; `Percent` holds
/// whole percentage points of the parent context; `Auto` and
/// `Undefined` resolve to no value.
#[derive(Clone, Copy, Debug, PartialEq, Eq, Structural)]
pub enum Dimension {
    Undefined,
    Auto,
    Points(i64),
    Percent(i64),
}

/// `x * p / 100` rounded toward zero, the share that `p` whole
/// percentage points take of `x`.
pub open spec fn percent_of(x: int, p: int) -> int {
    if x * p >= 0 {
        (x * p) / 100
    } else {
        -((-(x * p)) / 100)
    }
}

impl Dimension {
    /// What [`Dimension::resolve`] returns.
    pub open spec fn spec_resolve(self, parent: Number) -> Number {
        match self {
            Dimension::Points(v) => Number::Defined(v),
            Dimension::Percent(p) => match parent {
                Number::Defined(ctx) => Number::Defined(percent_of(ctx as int, p as int) as i64),
                Number::Undefined => Number::Undefined,
            },
            _ => Number::Undefined,
        }
    }

    /// Resolves the dimension against a parent context: an absolute
    /// length stands as it is, a percentage takes its share of a
    /// defined context and is undefined otherwise, and `Auto` or
    /// `Undefined` resolve to no value.
    pub fn resolve(self, parent: Number) -> (r: Number)
        requires
            self matches Dimension::Percent(p) && parent matches Number::Defined(ctx)
                ==> -i64::MAX <= (ctx as int) * (p as int) <= i64::MAX,
        ensures
            r == self.spec_resolve(parent),
    {
        match self {
            Dimension::Points(v) => Number::Defined(v),
            Dimension::Percent(p) => match parent {
                Number::Defined(ctx) => {
                    let prod: i64 = ctx * p;
                    let share: i64 = if prod >= 0 {
                        ((prod as u64) / 100) as i64
                    } else {
                        -((((-prod) as u64) / 100) as i64)
                    };
                    Number::Defined(share)
                },
                Number::Undefined => Number::Undefined,
            },
            _ => Number::Undefined,
        }
    }
}

/// A node's layout intent: how it sizes itself and lays out its
/// children.
#[derive(Clone, Copy, Debug, PartialEq, Eq, Structural)]
pub struct Style {
    pub display: Display,
    pub position_type: PositionType,
    pub direction: Direction,
    pub flex_direction: FlexDirection,
    pub flex_wrap: FlexWrap,
    pub justify_content: JustifyContent,
    pub align_items: AlignItems,
    pub align_self: AlignSelf,
    pub align_content: AlignContent,
    pub flex_grow: i64,
    pub flex_shrink: i64,
    pub flex_basis: Dimension,
    pub size: Size<Dimension>,
    pub min_size: Size<Dimension>,
    pub max_size: Size<Dimension>,
    pub margin: Rect<Dimension>,
    pub padding: Rect<Dimension>,
    pub border: Rect<Dimension>,
    pub position: Rect<Dimension>,
    pub aspect_ratio: Number,
}

/// The default style: a relative, non-wrapping row container that
/// stretches its items, with automatic sizes and undefined edges.
pub open spec fn default_style() -> Style {
    Style {
        display: Display::Flex,
        position_type: PositionType::Relative,
        direction: Direction::Ltr,
        flex_direction: FlexDirection::Row,
        flex_wrap: FlexWrap::NoWrap,
        justify_content: JustifyContent::FlexStart,
        align_items: AlignItems::Stretch,
        align_self: AlignSelf::Auto,
        align_content: AlignContent::Stretch,
        flex_grow: 0,
        flex_shrink: 1,
        flex_basis: Dimension::Auto,
        size: Size { width: Dimension::Auto, height: Dimension::Auto },
        min_size: Size { width: Dimension::Auto, height: Dimension::Auto },
        max_size: Size { width: Dimension::Auto, height: Dimension::Auto },
        margin: Rect {
            start: Dimension::Undefined,
            end: Dimension::Undefined,
            top: Dimension::Undefined,
            bottom: Dimension::Undefined,
        },
        padding: Rect {
            start: Dimension::Undefined,
            end: Dimension::Undefined,
            top: Dimension::Undefined,
            bottom: Dimension::Undefined,
        },
        border: Rect {
            start: Dimension::Undefined,
            end: Dimension::Undefined,
            top: Dimension::Undefined,
            bottom: Dimension::Undefined,
        },
        position: Rect {
            start: Dimension::Undefined,
            end: Dimension::Undefined,
            top: Dimension::Undefined,
            bottom: Dimension::Undefined,
        },
        aspect_ratio: Number::Undefined,
    }
}

impl core::default::Default for Style {
    /// The documented default for every option.
    fn default() -> (r: Style)
        ensures
            r == default_style(),
    {
        Style {
            display: Display::Flex,
            position_type: PositionType::Relative,
            direction: Direction::Ltr,
            flex_direction: FlexDirection::Row,
            flex_wrap: FlexWrap::NoWrap,
            justify_content: JustifyContent::FlexStart,
            align_items: AlignItems::Stretch,
            align_self: AlignSelf::Auto,
            align_content: AlignContent::Stretch,
            flex_grow: 0,
            flex_shrink: 1,
            flex_basis: Dimension::Auto,
            size: Size { width: Dimension::Auto, height: Dimension::Auto },
            min_size: Size { width: Dimension::Auto, height: Dimension::Auto },
            max_size: Size { width: Dimension::Auto, height: Dimension::Auto },
            margin: Rect {
                start: Dimension::Undefined,
                end: Dimension::Undefined,
                top: Dimension::Undefined,
                bottom: Dimension::Undefined,
            },
            padding: Rect {
                start: Dimension::Undefined,
                end: Dimension::Undefined,
                top: Dimension::Undefined,
                bottom: Dimension::Undefined,
            },
            border: Rect {
                start: Dimension::Undefined,
                end: Dimension::Undefined,
                top: Dimension::Undefined,
                bottom: Dimension::Undefined,
            },
            position: Rect {
                start: Dimension::Undefined,
                end: Dimension::Undefined,
                top: Dimension::Undefined,
                bottom: Dimension::Undefined,
            },
            aspect_ratio: Number::Undefined,
        }
    }
}

} // verus!
