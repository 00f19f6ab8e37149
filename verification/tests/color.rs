use bare_rt::math::color::Color;

#[test]
fn components() {
    let color = Color::from_components(0xFF, 0x0, 0x0);
    assert_eq!(color, Color::pure_red());
    assert_eq!(color.red(), 0xFF);
    assert_eq!(color.green(), 0x0);
    assert_eq!(color.blue(), 0x0);
    let color = Color::from_components(0x0, 0xFF, 0x0);
    assert_eq!(color, Color::pure_green());
    assert_eq!(color.red(), 0x0);
    assert_eq!(color.green(), 0xFF);
    assert_eq!(color.blue(), 0x0);
    let color = Color::from_components(0x0, 0x0, 0xFF);
    assert_eq!(color, Color::pure_blue());
    assert_eq!(color.red(), 0x0);
    assert_eq!(color.green(), 0x0);
    assert_eq!(color.blue(), 0xFF);
}

#[test]
fn mul_color() {
    let one = Color::from_components(0xFF, 0xFF, 0xFF);
    let res = one * one;
    assert_eq!(res, one);
    let half = Color::from_components(0x7F, 0x7F, 0x7F);
    let res = one * half;
    assert_eq!(res, half);
    let res = half * one;
    assert_eq!(res, half);
    let quarter = Color::from_components(0x3F, 0x3F, 0x3F);
    let res = half * half;
    assert_eq!(res, quarter);
    let zero = Color::from_components(0x0, 0x0, 0x0);
    let res = one * zero;
    assert_eq!(res, zero);
    let res = zero * one;
    assert_eq!(res, zero);
    let res = zero * zero;
    assert_eq!(res, zero);
}

#[test]
fn packed_values_of_the_pure_colors() {
    assert_eq!(Color::pure_red().into_inner(), 0xF800);
    assert_eq!(Color::pure_green().into_inner(), 0x07E0);
    assert_eq!(Color::pure_blue().into_inner(), 0x001F);
}

#[test]
fn from_components_drops_low_bits() {
    let color = Color::from_components(0x0F, 0x07, 0x0F);
    assert_eq!(color.into_inner(), (1 << 11) | (1 << 5) | 1);
    assert_eq!(color.red(), 0x0F);
    assert_eq!(color.green(), 0x07);
    assert_eq!(color.blue(), 0x0F);
    let dark = Color::from_components(0x07, 0x03, 0x07);
    assert_eq!(dark.into_inner(), 0);
}

#[test]
fn add_saturates_each_component() {
    let a = Color::from_components(0xF0, 0x10, 0x80);
    let b = Color::from_components(0x20, 0x20, 0x80);
    let sum = a + b;
    assert_eq!(sum.red(), 0xFF);
    assert_eq!(sum.green(), 0x37);
    assert_eq!(sum.blue(), 0xFF);
    assert_eq!(sum, a.plus_color(b));
}

#[test]
fn times_color_is_the_operator() {
    let a = Color::from_components(0x80, 0x40, 0xC0);
    let b = Color::from_components(0x7F, 0xFF, 0x10);
    assert_eq!(a * b, a.times_color(b));
    // red: (17 * 16 - 1) / 32 = 8, green: (17 * 64 - 1) / 64 = 16,
    // blue: (25 * 3 - 1) / 32 = 2
    assert_eq!((a * b).into_inner(), (8 << 11) | (16 << 5) | 2);
}

#[test]
fn default_color_is_black() {
    assert_eq!(Color::default(), Color::from_components(0, 0, 0));
    assert_eq!(Color::default().into_inner(), 0);
}

#[test]
fn compound_assignment_is_the_operator() {
    let a = Color::from_components(0x80, 0x40, 0xC0);
    let b = Color::from_components(0x7F, 0xFF, 0x10);
    let mut sum = a;
    sum += b;
    assert_eq!(sum, a + b);
    let mut product = a;
    product *= b;
    assert_eq!(product, a * b);
}
