use std::cmp::Ordering;
use zbus_core::align::Format;
use zbus_core::parse::SignatureError;
use zbus_core::signature::Signature;
use zbus_core::validate;

fn parse(s: &str) -> Signature {
    Signature::from_bytes(s.as_bytes()).unwrap()
}

#[test]
fn parse_dict_of_string_to_variant() {
    let sig = parse("a{sv}");
    let expect = Signature::dict(Signature::Str, Signature::Variant);
    assert!(sig == expect);
    assert_eq!(sig.to_string(), "a{sv}");
    assert_eq!(sig.alignment(Format::DBus), 4);
}

#[test]
fn parse_structure_with_containers() {
    let sig = parse("(xa{bs}as)");
    let expect = Signature::structure(vec![
        Signature::I64,
        Signature::dict(Signature::Bool, Signature::Str),
        Signature::array(Signature::Str),
    ]);
    assert!(sig == expect);
    assert_eq!(sig.to_string(), "(xa{bs}as)");
    assert_eq!(sig.to_string_no_parens(), "xa{bs}as");
}

#[test]
fn parse_empty_is_unit() {
    let sig = parse("");
    assert!(sig == Signature::Unit);
    assert_eq!(sig.to_string(), "");
    assert_eq!(sig.string_len(), 0);
}

#[test]
fn parse_two_top_level_signatures_is_structure() {
    let sig = parse("ii");
    let expect = Signature::structure(vec![Signature::I32, Signature::I32]);
    assert!(sig == expect);
    assert_eq!(sig.to_string(), "(ii)");
    assert_eq!(sig.to_string_no_parens(), "ii");
}

#[test]
fn to_string_round_trips_single_signatures() {
    for s in [
        "y", "b", "n", "q", "i", "u", "x", "t", "d", "s", "g", "o", "v", "h", "ai", "a{sv}",
        "(ii)", "(xa{bs}as)", "aai", "a{s(ii)}", "mi", "mai", "((i))",
    ] {
        let sig = parse(s);
        assert_eq!(sig.to_string(), s);
    }
}

#[test]
fn to_string_wraps_multi_field_top_level() {
    for (s, wrapped) in [("ii", "(ii)"), ("xa{bs}as", "(xa{bs}as)"), ("yy", "(yy)")] {
        let sig = parse(s);
        assert_eq!(sig.to_string(), wrapped);
        assert_eq!(sig.to_string_no_parens(), s);
    }
}

#[test]
fn string_len_matches_to_string() {
    for s in ["", "y", "ai", "a{sv}", "(ii)", "ii", "(xa{bs}as)", "mi", "a{s(ii)}"] {
        let sig = parse(s);
        assert_eq!(sig.string_len(), sig.to_string().len());
    }
}

#[test]
fn validate_agrees_with_parse() {
    for s in [
        "", "y", "ai", "a{sv}", "(ii)", "ii", "(xa{bs}as)", "mi", "a", "z", "a{s", "a{sv",
        "(", "(i", "()", "a{}", "m", "(ii", "ii)", "a{sv}}",
    ] {
        let ok = Signature::from_bytes(s.as_bytes()).is_ok();
        assert_eq!(validate(s.as_bytes()).is_ok(), ok, "input {:?}", s);
    }
}

#[test]
fn invalid_signature_error() {
    assert_eq!(Signature::from_bytes(b"z").unwrap_err(), SignatureError::InvalidSignature);
    assert_eq!(validate(b"(").unwrap_err(), SignatureError::InvalidSignature);
}

#[test]
fn equality_is_reflexive_symmetric_transitive() {
    let a = parse("a{s(ii)}");
    let b = parse("a{s(ii)}");
    let c = parse("a{s(ii)}");
    let other = parse("a{s(ix)}");
    assert!(a == a);
    assert!(a == b && b == a);
    assert!(a == b && b == c && a == c);
    assert!(a != other && other != a);
}

#[test]
fn ordering_is_total_and_consistent_with_equality() {
    let samples = [
        parse(""), parse("y"), parse("b"), parse("i"), parse("s"), parse("ai"),
        parse("a{sv}"), parse("(ii)"), parse("(ix)"), parse("mi"), parse("aai"),
    ];
    for x in &samples {
        assert_eq!(x.cmp(x), Ordering::Equal);
        for y in &samples {
            let xy = x.cmp(y);
            let yx = y.cmp(x);
            assert_eq!(xy == Ordering::Equal, x == y);
            assert_eq!(xy.reverse(), yx);
            assert_eq!(x.partial_cmp(y), Some(xy));
            for z in &samples {
                if xy != Ordering::Greater && y.cmp(z) != Ordering::Greater {
                    assert_ne!(x.cmp(z), Ordering::Greater);
                }
            }
        }
    }
}

#[test]
fn eq_str_accepts_both_structure_forms() {
    let sig = parse("ii");
    assert!(sig.eq_str("(ii)"));
    assert!(sig.eq_str("ii"));
    assert!(!sig.eq_str("(iii)"));
    let dict = parse("a{sv}");
    assert!(dict.eq_str("a{sv}"));
    assert!(!dict.eq_str("a{vs}"));
    assert!(!dict.eq_str(""));
}

#[test]
fn dbus_alignment_table() {
    let cases: Vec<(Signature, usize)> = vec![
        (Signature::U8, 1),
        (Signature::I16, 2),
        (Signature::I32, 4),
        (Signature::I64, 8),
        (Signature::Str, 4),
        (Signature::ObjectPath, 4),
        (Signature::Signature, 1),
        (Signature::Variant, 1),
        (Signature::array(Signature::U8), 4),
        (Signature::dict(Signature::Str, Signature::Variant), 4),
        (Signature::structure(vec![Signature::U8]), 8),
        (Signature::Unit, 8),
        (Signature::Fd, 4),
        (Signature::Bool, 4),
        (Signature::U16, 2),
        (Signature::U32, 4),
        (Signature::U64, 8),
        (Signature::F64, 8),
    ];
    for (sig, want) in cases {
        assert_eq!(sig.alignment_dbus(), want, "signature {}", sig.to_string());
        assert_eq!(sig.alignment(Format::DBus), want);
    }
}

#[test]
fn gvariant_alignment_follows_children() {
    assert_eq!(Signature::Str.alignment_gvariant(), 1);
    assert_eq!(Signature::ObjectPath.alignment(Format::GVariant), 1);
    assert_eq!(Signature::Variant.alignment_gvariant(), 8);
    assert_eq!(Signature::array(Signature::U8).alignment_gvariant(), 1);
    assert_eq!(Signature::array(Signature::I64).alignment_gvariant(), 8);
    assert_eq!(
        Signature::dict(Signature::U8, Signature::I32).alignment_gvariant(),
        4
    );
    assert_eq!(
        Signature::structure(vec![Signature::U8, Signature::I16]).alignment_gvariant(),
        2
    );
    assert_eq!(Signature::structure(vec![]).alignment_gvariant(), 1);
    assert_eq!(Signature::maybe(Signature::I64).alignment_gvariant(), 8);
    assert_eq!(Signature::Unit.alignment_gvariant(), 8);
}

#[test]
fn fixed_size_query() {
    assert!(Signature::U8.is_fixed_sized());
    assert!(Signature::I64.is_fixed_sized());
    assert!(Signature::Fd.is_fixed_sized());
    assert!(Signature::Unit.is_fixed_sized());
    assert!(!Signature::Str.is_fixed_sized());
    assert!(!Signature::Variant.is_fixed_sized());
    assert!(!Signature::array(Signature::U8).is_fixed_sized());
    assert!(!Signature::maybe(Signature::U8).is_fixed_sized());
    assert!(Signature::structure(vec![Signature::U8, Signature::I32]).is_fixed_sized());
    assert!(!Signature::structure(vec![Signature::U8, Signature::Str]).is_fixed_sized());
}

#[test]
fn static_constructors_copy_their_children() {
    let child = Signature::I32;
    let arr = Signature::static_array(&child);
    assert!(arr == Signature::array(Signature::I32));
    let dict = Signature::static_dict(&Signature::Str, &Signature::Variant);
    assert!(dict == parse("a{sv}"));
    let st = Signature::static_structure(&[Signature::I32, Signature::Str]);
    assert!(st == parse("is"));
    let maybe = Signature::static_maybe(&Signature::U8);
    assert!(maybe == parse("my"));
}

#[test]
fn clone_preserves_the_tree() {
    let sig = parse("(xa{bs}as)");
    let copy = sig.clone();
    assert!(copy == sig);
    assert_eq!(copy.to_string(), sig.to_string());
}

#[test]
fn nested_maybe_and_arrays() {
    let sig = parse("maai");
    assert!(sig == Signature::maybe(Signature::array(Signature::array(Signature::I32))));
    assert_eq!(sig.to_string(), "maai");
    assert_eq!(sig.string_len(), 4);
}

#[test]
fn dict_with_container_key_is_accepted() {
    // The parser does not enforce the basic-key rule of the D-Bus
    // specification.
    let sig = parse("a{(ii)v}");
    assert!(sig == Signature::dict(
        Signature::structure(vec![Signature::I32, Signature::I32]),
        Signature::Variant,
    ));
    assert_eq!(sig.to_string(), "a{(ii)v}");
}

#[test]
fn print_then_parse_is_identity() {
    for s in ["", "y", "a{sv}", "(xa{bs}as)", "ii", "maai", "((i))", "a{(ii)v}"] {
        let sig = parse(s);
        let printed = sig.to_string();
        let back = Signature::from_bytes(printed.as_bytes()).unwrap();
        assert!(back == sig);
    }
}
