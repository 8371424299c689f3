use fqcn_rename::fqcn::Fqcn;

#[test]
fn fqcn_test_works() {
    let fqcn = Fqcn::new("foo.bar.Baz").unwrap();
    assert_eq!("Baz", fqcn.ident());
    assert_eq!("foo.bar", fqcn.package());
    assert_eq!("foo.bar.Baz", fqcn.value());

    assert!(Fqcn::new("foo.bar").is_none());
    assert!(matches!(Fqcn::new("foo.bar.Baz.Smaz"), None));
}
