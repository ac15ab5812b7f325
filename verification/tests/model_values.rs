use flexforest::forest::Forest;
use flexforest::geometry::{Point, Rect, Size};
use flexforest::layout::Layout;
use flexforest::number::Number;
use flexforest::style::{
    AlignContent, AlignItems, AlignSelf, Dimension, Direction, Display, FlexDirection, FlexWrap,
    JustifyContent, Style,
};

#[test]
fn plus_adds_defined_values() {
    assert_eq!(Number::Defined(2).plus(Number::Defined(40)), Number::Defined(42));
    assert_eq!(Number::Defined(-5).plus(Number::Defined(3)), Number::Defined(-2));
}

#[test]
fn plus_propagates_undefined() {
    assert_eq!(Number::Undefined.plus(Number::Defined(3)), Number::Undefined);
    assert_eq!(Number::Defined(3).plus(Number::Undefined), Number::Undefined);
    assert_eq!(Number::Undefined.plus(Number::Undefined), Number::Undefined);
}

#[test]
fn max_and_min_yield_the_other_operand_against_undefined() {
    assert_eq!(Number::Defined(4).max_with(Number::Undefined), Number::Defined(4));
    assert_eq!(Number::Undefined.max_with(Number::Defined(4)), Number::Defined(4));
    assert_eq!(Number::Defined(4).max_with(Number::Defined(9)), Number::Defined(9));
    assert_eq!(Number::Defined(4).min_with(Number::Undefined), Number::Defined(4));
    assert_eq!(Number::Undefined.min_with(Number::Defined(4)), Number::Defined(4));
    assert_eq!(Number::Defined(4).min_with(Number::Defined(9)), Number::Defined(4));
}

#[test]
fn clamping_by_undefined_bounds_is_a_no_op() {
    assert_eq!(
        Number::Defined(50).clamped(Number::Undefined, Number::Undefined),
        Number::Defined(50)
    );
    assert_eq!(
        Number::Defined(50).clamped(Number::Defined(60), Number::Undefined),
        Number::Defined(60)
    );
    assert_eq!(
        Number::Defined(50).clamped(Number::Undefined, Number::Defined(20)),
        Number::Defined(20)
    );
    assert_eq!(
        Number::Undefined.clamped(Number::Defined(1), Number::Defined(2)),
        Number::Undefined
    );
}

#[test]
fn points_resolve_to_their_value() {
    assert_eq!(Dimension::Points(120).resolve(Number::Undefined), Number::Defined(120));
    assert_eq!(Dimension::Points(-7).resolve(Number::Defined(10)), Number::Defined(-7));
}

#[test]
fn percent_takes_its_share_of_a_defined_context() {
    assert_eq!(Dimension::Percent(50).resolve(Number::Defined(200)), Number::Defined(100));
    assert_eq!(Dimension::Percent(25).resolve(Number::Defined(200)), Number::Defined(50));
    assert_eq!(Dimension::Percent(10).resolve(Number::Defined(-155)), Number::Defined(-15));
    assert_eq!(Dimension::Percent(33).resolve(Number::Defined(100)), Number::Defined(33));
}

#[test]
fn percent_of_an_undefined_context_is_undefined() {
    assert_eq!(Dimension::Percent(50).resolve(Number::Undefined), Number::Undefined);
}

#[test]
fn auto_and_undefined_resolve_to_no_value() {
    assert_eq!(Dimension::Auto.resolve(Number::Defined(100)), Number::Undefined);
    assert_eq!(Dimension::Undefined.resolve(Number::Defined(100)), Number::Undefined);
}

#[test]
fn default_style_matches_the_documented_defaults() {
    let s = Style::default();
    assert_eq!(s.display, Display::Flex);
    assert_eq!(s.position_type, flexforest::style::PositionType::Relative);
    assert_eq!(s.direction, Direction::Ltr);
    assert_eq!(s.flex_direction, FlexDirection::Row);
    assert_eq!(s.flex_wrap, FlexWrap::NoWrap);
    assert_eq!(s.justify_content, JustifyContent::FlexStart);
    assert_eq!(s.align_items, AlignItems::Stretch);
    assert_eq!(s.align_self, AlignSelf::Auto);
    assert_eq!(s.align_content, AlignContent::Stretch);
    assert_eq!(s.flex_grow, 0);
    assert_eq!(s.flex_shrink, 1);
    assert_eq!(s.flex_basis, Dimension::Auto);
    assert_eq!(s.size, Size { width: Dimension::Auto, height: Dimension::Auto });
    assert_eq!(
        s.margin,
        Rect {
            start: Dimension::Undefined,
            end: Dimension::Undefined,
            top: Dimension::Undefined,
            bottom: Dimension::Undefined,
        }
    );
    assert_eq!(s.aspect_ratio, Number::Undefined);
}

#[test]
fn fresh_layout_is_zeroed() {
    assert_eq!(
        Layout::new(),
        Layout { order: 0, size: Size { width: 0, height: 0 }, location: Point { x: 0, y: 0 } }
    );
}

#[test]
fn set_pos_stores_the_translation() {
    let mut f: Forest<()> = Forest::with_capacity(1);
    f.new_node(Style::default(), Vec::new());
    f.set_pos(0, 3, 4, 5, 6);
    assert_eq!(f.nodes[0].x, 3);
    assert_eq!(f.nodes[0].y, 4);
    assert_eq!(f.nodes[0].bottom, 5);
    assert_eq!(f.nodes[0].right, 6);
}

#[test]
fn set_cache_stores_the_extent_counters() {
    let mut f: Forest<()> = Forest::with_capacity(1);
    f.new_node(Style::default(), Vec::new());
    f.set_cache(0, 9, 480);
    assert_eq!(f.nodes[0].cache_el_count, 9);
    assert_eq!(f.nodes[0].cache_farest_element, 480);
}
