use zugzwang::types::Color;

#[test]
fn opposite_toggles_color() {
    assert_eq!(Color::White.opposite(), Color::Black);
    assert_eq!(Color::Black.opposite(), Color::White);
}
