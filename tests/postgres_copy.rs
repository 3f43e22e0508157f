use nlwkn::postgres_copy::{
    quoted, write_composite, CopyValue, IsoDate, IterPostgresCopy, PostgresCopy, PostgresCopyContext, UtmPoint,
};

fn ctx_depth(depth: usize) -> PostgresCopyContext {
    PostgresCopyContext {
        depth,
        ..Default::default()
    }
}

#[test]
fn quoted_works() {
    let mut buffer = String::new();
    quoted(&mut buffer, "123", ctx_depth(0));
    assert_eq!(buffer, r#"123"#, "depth 0");

    let mut buffer = String::new();
    quoted(&mut buffer, "123", ctx_depth(1));
    assert_eq!(buffer, r#""123""#, "depth 1");

    let mut buffer = String::new();
    quoted(&mut buffer, "123", ctx_depth(2));
    assert_eq!(buffer, r#"\\"123\\""#, "depth 2");

    let mut buffer = String::new();
    quoted(&mut buffer, "123", ctx_depth(3));
    assert_eq!(buffer, r#"\\"\\"123\\"\\""#, "depth 3");
}

#[test]
fn composite_works() {
    let fields = vec![CopyValue::Text("lol".to_string()), CopyValue::Number(69)];

    let mut buffer = String::new();
    write_composite(&mut buffer, &fields, ctx_depth(0));
    assert_eq!(buffer, r#"("lol",69)"#, "depth 0");

    let mut buffer = String::new();
    write_composite(&mut buffer, &fields, ctx_depth(1));
    assert_eq!(buffer, r#""(\\"lol\\",69)""#, "depth 1");
}

#[test]
fn str_copy_to_works() {
    let input = r#"some "quoted" text"#.to_string();

    let mut buffer = String::new();
    input.copy_to(&mut buffer, ctx_depth(0));
    assert_eq!(buffer, r#"some "quoted" text"#, "depth 0");

    let mut buffer = String::new();
    input.copy_to(&mut buffer, ctx_depth(1));
    assert_eq!(buffer, r#""some ""quoted"" text""#, "depth 1");

    let mut buffer = String::new();
    input.copy_to(&mut buffer, ctx_depth(2));
    assert_eq!(buffer, r#"\\"some \\"\\"quoted\\"\\" text\\""#, "depth 2");
}

#[test]
fn context_builders_set_one_field_each() {
    let ctx = ctx_depth(0);
    assert_eq!(ctx.deepen().depth, 1);
    assert!(ctx.composite().in_composite);
    assert!(!ctx.composite().in_array);
    assert!(ctx.array().in_array);
}

#[test]
fn null_is_empty_inside_a_composite() {
    let mut buffer = String::new();
    CopyValue::Null.copy_to(&mut buffer, ctx_depth(0));
    assert_eq!(buffer, r"\N");

    let mut buffer = String::new();
    CopyValue::Null.copy_to(&mut buffer, ctx_depth(0).composite());
    assert_eq!(buffer, "");
}

#[test]
fn line_breaks_are_escaped() {
    let mut buffer = String::new();
    "a\nb\rc".to_string().copy_to(&mut buffer, ctx_depth(0));
    assert_eq!(buffer, r"a\nb\rc");
}

#[test]
fn numbers_are_written_in_base_ten() {
    let mut buffer = String::new();
    1234567890u64.copy_to(&mut buffer, ctx_depth(0));
    assert_eq!(buffer, "1234567890");
}

#[test]
fn arrays_hold_their_items_in_braces() {
    let mut buffer = String::new();
    nlwkn::postgres_copy::write_array(&mut buffer, &vec![CopyValue::Number(1), CopyValue::Bool(true)], ctx_depth(0));
    assert_eq!(buffer, "{1,true}");

    let mut buffer = String::new();
    nlwkn::postgres_copy::write_array(&mut buffer, &vec![], ctx_depth(0));
    assert_eq!(buffer, r"\N");
}

#[test]
fn points_and_dates() {
    let mut buffer = String::new();
    UtmPoint { easting: 32603873, northing: 5852015 }.copy_to(&mut buffer, ctx_depth(1));
    assert_eq!(buffer, "POINT(32603873 5852015)");

    let mut buffer = String::new();
    IsoDate("unbefristet".to_string()).copy_to(&mut buffer, ctx_depth(0));
    assert_eq!(buffer, "infinity");

    let mut buffer = String::new();
    IsoDate("2009-12-31".to_string()).copy_to(&mut buffer, ctx_depth(0));
    assert_eq!(buffer, "2009-12-31");
}

#[test]
fn value_lists_are_arrays() {
    let mut buffer = String::new();
    IterPostgresCopy::copy_to(&vec![CopyValue::Text("a b".to_string()), CopyValue::Null], &mut buffer, ctx_depth(0));
    assert_eq!(buffer, r"{a b,\N}");
}
