use cozo::typing::Typing;

#[test]
fn typing_text() {
    assert_eq!(Typing::NamedTuple(vec![]).to_text(), "()");
    let t = Typing::NamedTuple(vec![
        ("id".to_string(), Typing::Int),
        ("tags".to_string(), Typing::Homogeneous(Box::new(Typing::Nullable(Box::new(Typing::Uuid))))),
        ("score".to_string(), Typing::Float),
    ]);
    assert_eq!(t.to_text(), "(id: Int, tags: [?Uuid], score: Float)");
    assert_eq!(Typing::Any.to_text(), "Any");
    assert_eq!(Typing::Nullable(Box::new(Typing::UInt)).to_text(), "?UInt");
}
