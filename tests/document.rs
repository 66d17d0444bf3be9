use svg2polylines::{conversion_status, is_scannable, parse, polylines_of_paths, CoordinatePair, SegmentData};

fn pt(x: f64, y: f64) -> CoordinatePair {
    CoordinatePair::new(x.to_bits(), y.to_bits())
}

#[test]
fn test_parse_simple_nonclosed() {
    let input = r#"
        <?xml version="1.0" encoding="UTF-8" standalone="no"?>
        <svg xmlns="http://www.w3.org/2000/svg" version="1.1">
            <path d="m 113,35 h 40 l -39,49 h 40" />
        </svg>
    "#;
    let result = parse(&input).unwrap();
    assert_eq!(result.len(), 1);
    assert_eq!(result[0].len(), 4);
    assert_eq!(result[0][0], pt(113., 35.));
    assert_eq!(result[0][1], pt(40., 35.));
    assert_eq!(result[0][2], pt(-39., 49.));
    assert_eq!(result[0][3], pt(40., 49.));
}

#[test]
fn test_parse_simple_closed() {
    let input = r#"
        <?xml version="1.0" encoding="UTF-8" standalone="no"?>
        <svg xmlns="http://www.w3.org/2000/svg" version="1.1">
            <path d="m 10,10 20,15 10,20 z" />
        </svg>
    "#;
    let result = parse(&input).unwrap();
    assert_eq!(result.len(), 1);
    assert_eq!(result[0].len(), 4);
    assert_eq!(result[0][0], pt(10., 10.));
    assert_eq!(result[0][1], pt(20., 15.));
    assert_eq!(result[0][2], pt(10., 20.));
    assert_eq!(result[0][3], pt(10., 10.));
}

#[test]
fn unterminated_tag_fails() {
    let parsed = parse("<svg xmlns=\"http://www.w3.org/2000/svg\"><path d=\"M 1 1 L 2 2\"");
    assert!(parsed.is_err());
    assert_eq!(conversion_status(&parsed), 1);
}

#[test]
fn successful_parse_has_status_zero() {
    let parsed = parse("<svg><path d=\"M 1 1 L 2 2\"/></svg>");
    assert_eq!(conversion_status(&parsed), 0);
    assert_eq!(parsed.unwrap(), vec![vec![pt(1., 1.), pt(2., 2.)]]);
}

#[test]
fn curve_truncates_second_path_only() {
    let input = r#"
        <svg xmlns="http://www.w3.org/2000/svg">
            <path d="M 10 10 L 20 20 L 30 10" />
            <path d="M 1 1 L 2 2 C 3 3 4 4 5 5 L 6 6" />
        </svg>
    "#;
    let result = parse(input).unwrap();
    assert_eq!(result.len(), 2);
    assert_eq!(result[0], vec![pt(10., 10.), pt(20., 20.), pt(30., 10.)]);
    assert_eq!(result[1], vec![pt(1., 1.), pt(2., 2.)]);
}

#[test]
fn paths_do_not_share_state() {
    // The first path ends with a single point, which must not join the second.
    let input = r#"<svg><path d="M 1 1 L 2 2 M 9 9"/><path d="M 5 5 L 6 6"/></svg>"#;
    let result = parse(input).unwrap();
    assert_eq!(result, vec![vec![pt(1., 1.), pt(2., 2.)], vec![pt(5., 5.), pt(6., 6.)]]);
}

#[test]
fn other_attributes_are_ignored() {
    let input = r#"<svg width="10"><rect x="1" y="2"/><path id="p" d="M 0 0 L 1 1"/></svg>"#;
    let result = parse(input).unwrap();
    assert_eq!(result, vec![vec![pt(0., 0.), pt(1., 1.)]]);
}

#[test]
fn empty_document_has_no_polylines() {
    assert_eq!(parse("").unwrap().len(), 0);
}

#[test]
fn path_syntax_error_keeps_prefix() {
    let input = r#"<svg><path d="M 10 20 L 30 40 #!@$1 L 50 60"/></svg>"#;
    let result = parse(input).unwrap();
    assert_eq!(result, vec![vec![pt(10., 20.), pt(30., 40.)]]);
}

#[test]
fn paths_are_interpreted_in_order() {
    let a = vec![
        SegmentData::MoveTo { x: 1.0f64.to_bits(), y: 1.0f64.to_bits() },
        SegmentData::LineTo { x: 2.0f64.to_bits(), y: 2.0f64.to_bits() },
    ];
    let b = vec![
        SegmentData::MoveTo { x: 3.0f64.to_bits(), y: 3.0f64.to_bits() },
        SegmentData::LineTo { x: 4.0f64.to_bits(), y: 4.0f64.to_bits() },
    ];
    let lines = polylines_of_paths(&vec![a, b]);
    assert_eq!(lines, vec![vec![pt(1., 1.), pt(2., 2.)], vec![pt(3., 3.), pt(4., 4.)]]);
}

#[test]
fn doctype_without_subset_is_read() {
    let input = r#"<?xml version="1.0"?>
<!DOCTYPE svg PUBLIC "-//W3C//DTD SVG 1.1//EN" "http://www.w3.org/Graphics/SVG/1.1/DTD/svg11.dtd">
<svg><path d="M 1 2 L 3 4"/></svg>"#;
    assert_eq!(parse(input).unwrap(), vec![vec![pt(1., 2.), pt(3., 4.)]]);
}

#[test]
fn doctype_subset_is_read() {
    let input = "<!DOCTYPE svg [ <!ENTITY a \"b\"> ]><svg><path d=\"M 1 2 L 3 4\"/></svg>";
    assert_eq!(parse(input).unwrap(), vec![vec![pt(1., 2.), pt(3., 4.)]]);
}

#[test]
fn doctype_then_cdata_is_read() {
    let input = "<!DOCTYPE svg><svg><style><![CDATA[p{}]]></style><path d=\"M 1 2 L 3 4\"/></svg>";
    assert_eq!(parse(input).unwrap(), vec![vec![pt(1., 2.), pt(3., 4.)]]);
}

#[test]
fn cut_characters_are_refused() {
    let wide = "<!DOCTYPE \u{e9}[ <!ENTITY a \"b\"> ]><svg/>";
    let parsed = parse(wide);
    assert!(parsed.is_err());
    assert_eq!(conversion_status(&parsed), 1);
    let entity = "<!DOCTYPE svg [ <!ENTITY\u{e9} \"b\"> ]><svg/>";
    assert!(parse(entity).is_err());
}

#[test]
fn scannable_text() {
    assert!(is_scannable(b"<svg><![CDATA[x]]></svg>"));
    assert!(is_scannable(b"<!DOCTYPE svg><svg/>"));
    assert!(is_scannable(b"<!DOCTYPE svg [ ]><svg/>"));
    assert!(is_scannable(b"<!DOCTYPE svg><svg><![CDATA[x]]></svg>"));
    assert!(is_scannable("<!DOCTYPE svg><text>\u{e9}[</text>".as_bytes()));
    assert!(!is_scannable("<!DOCTYPE \u{e9}[ ]>".as_bytes()));
    assert!(!is_scannable("<!ENTITY\u{e9}".as_bytes()));
    assert!(is_scannable("<!ENTITY \u{e9}".as_bytes()));
    assert!(is_scannable(b""));
}

#[test]
fn scanner_error_is_reported() {
    let first = parse("<svg></a></b>");
    assert!(first.is_err());
    assert_eq!(first, parse("<svg></a></b>"));
}

#[test]
fn attribute_names_must_be_exactly_d() {
    let input = r#"<svg><text dx="M 0 0 L 1 1" D="M 0 0 L 1 1"/><path d="M 5 5 L 6 6"/></svg>"#;
    assert_eq!(parse(input).unwrap(), vec![vec![pt(5., 5.), pt(6., 6.)]]);
}

#[test]
fn repeated_parse_is_equal() {
    let input = r#"<svg><path d="M 1 1 L 2 2 Z"/></svg>"#;
    assert_eq!(parse(input), parse(input));
}
