use own::color::{parse_color, ColorSpec};

#[test]
fn hex_colors_give_their_bytes() {
    match parse_color("#ff8000") {
        ColorSpec::Rgb(r, g, b) => assert_eq!((r, g, b), (255, 128, 0)),
        other => panic!("unexpected {:?}", other),
    }
    match parse_color("#+fzzAB") {
        ColorSpec::Rgb(r, g, b) => assert_eq!((r, g, b), (15, 0, 171)),
        other => panic!("unexpected {:?}", other),
    }
}

#[test]
fn hsl_colors_give_their_parts() {
    match parse_color("hsl(120, 80%, 50%)") {
        ColorSpec::Hsl(h, s, l) => assert_eq!((h.as_str(), s.as_str(), l.as_str()), ("120", "80", "50")),
        other => panic!("unexpected {:?}", other),
    }
    match parse_color("hsl(hsl(200°,10%,20%)))") {
        ColorSpec::Hsl(h, s, l) => assert_eq!((h.as_str(), s.as_str(), l.as_str()), ("200", "10", "20")),
        other => panic!("unexpected {:?}", other),
    }
}

#[test]
fn other_texts_are_white() {
    assert!(matches!(parse_color("blue"), ColorSpec::White));
    assert!(matches!(parse_color("#fff"), ColorSpec::White));
    assert!(matches!(parse_color("hsl(1, 2)"), ColorSpec::White));
}
