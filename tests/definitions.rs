use cozo::definition::{ColumnDef, DefBody, Definition, DefinitionReader};
use cozo::env::{Environment, MemoryEnv};
use cozo::error::CozoError;
use cozo::tuple::{DataKind, Prefix, Tuple};
use cozo::typing::Typing;
use cozo::value::Value;

fn col(is_key: bool, name: &str, typing: Typing) -> ColumnDef {
    ColumnDef { is_key, name: name.to_string(), typing }
}

fn person_def(in_root: bool) -> Definition {
    Definition {
        in_root,
        body: DefBody::Node {
            name: "Person".to_string(),
            cols: vec![
                col(true, "id", Typing::Int),
                col(false, "name", Typing::Text),
                col(false, "email", Typing::Nullable(Box::new(Typing::Text))),
                col(
                    false,
                    "habits",
                    Typing::Nullable(Box::new(Typing::Homogeneous(Box::new(Typing::Nullable(
                        Box::new(Typing::Text),
                    ))))),
                ),
            ],
        },
    }
}

fn friend_def(in_root: bool) -> Definition {
    Definition {
        in_root,
        body: DefBody::Edge {
            src: "Person".to_string(),
            name: "Friend".to_string(),
            dst: "Person".to_string(),
            cols: Some(vec![col(false, "relation", Typing::Nullable(Box::new(Typing::Text)))]),
        },
    }
}

fn text(s: &str) -> Value {
    Value::Text(s.to_string())
}

#[test]
fn node() {
    let mut env = MemoryEnv::default();

    env.run_definition(person_def(true)).unwrap();
    println!("{:?}", env.resolve("Person"));

    env.run_definition(friend_def(true)).unwrap();
    println!("{:?}", env.resolve("Friend"));

    let xxy = Definition {
        in_root: true,
        body: DefBody::TypeAlias {
            name: "XXY".to_string(),
            typing: Typing::NamedTuple(vec![
                ("me".to_string(), Typing::Int),
                (
                    "f".to_string(),
                    Typing::Nullable(Box::new(Typing::Homogeneous(Box::new(Typing::Text)))),
                ),
            ]),
        },
    };
    env.run_definition(xxy).unwrap();
    println!("{:?}", env.resolve("XXY"));

    let work_info = Definition {
        in_root: false,
        body: DefBody::Assoc {
            name: "WorkInfo".to_string(),
            src: "Person".to_string(),
            cols: vec![col(false, "email", Typing::Text)],
        },
    };
    env.run_definition(work_info).unwrap();
    println!("{:?}", env.resolve("WorkInfo"));
}

#[test]
fn person_node_layout() {
    let mut env = MemoryEnv::default();
    env.run_definition(person_def(true)).unwrap();
    let t = env.resolve("Person").unwrap().unwrap();
    assert_eq!(t.prefix, Prefix::Data(DataKind::Node));
    assert_eq!(
        t.elems,
        vec![
            Value::Bool(true),
            Value::UInt(1),
            text("(id: Int)"),
            text("(name: Text, email: ?Text, habits: ?[?Text])"),
            Value::Null,
            Value::Null,
        ]
    );
}

#[test]
fn friend_edge_points_at_person() {
    let mut env = MemoryEnv::default();
    let person = Definition {
        in_root: true,
        body: DefBody::Node {
            name: "Person".to_string(),
            cols: vec![col(true, "id", Typing::Int), col(false, "name", Typing::Text)],
        },
    };
    env.run_definition(person).unwrap();
    env.run_definition(friend_def(true)).unwrap();
    let p = env.resolve("Person").unwrap().unwrap();
    let person_id = p.elems[1].deep_clone();
    let f = env.resolve("Friend").unwrap().unwrap();
    assert_eq!(f.data_kind().unwrap(), DataKind::Edge);
    assert_eq!(
        f.elems,
        vec![
            Value::Bool(true),
            Value::UInt(2),
            Value::Bool(true),
            person_id.deep_clone(),
            Value::Bool(true),
            person_id,
            text("()"),
            text("(relation: ?Text)"),
            Value::Null,
            Value::Null,
        ]
    );
}

#[test]
fn duplicate_column_names_fail() {
    let mut env = MemoryEnv::default();
    let def = Definition {
        in_root: true,
        body: DefBody::Node {
            name: "Dup".to_string(),
            cols: vec![col(true, "id", Typing::Int), col(false, "id", Typing::Text)],
        },
    };
    let r = env.run_definition(def);
    assert_eq!(r, Err(CozoError::DuplicateNames(vec!["id".to_string(), "id".to_string()])));
    assert_eq!(env.resolve("Dup").unwrap(), None);
}

#[test]
fn global_edge_with_local_node_fails() {
    let mut env = MemoryEnv::default();
    env.run_definition(person_def(false)).unwrap();
    let r = env.run_definition(friend_def(true));
    assert!(matches!(r, Err(CozoError::LogicError(_))));
    assert_eq!(env.resolve("Friend").unwrap(), None);
}

#[test]
fn global_edge_with_global_node_succeeds() {
    let mut env = MemoryEnv::default();
    env.run_definition(person_def(true)).unwrap();
    assert_eq!(env.run_definition(friend_def(true)), Ok(()));
    assert!(env.resolve("Friend").unwrap().is_some());
}

#[test]
fn local_edge_with_local_node_succeeds() {
    let mut env = MemoryEnv::default();
    env.run_definition(person_def(false)).unwrap();
    assert_eq!(env.run_definition(friend_def(false)), Ok(()));
    let f = env.resolve("Friend").unwrap().unwrap();
    assert_eq!(f.elems[0], Value::Bool(false));
    assert_eq!(f.elems[2], Value::Bool(false));
}

#[test]
fn keyed_association_fails() {
    let mut env = MemoryEnv::default();
    env.run_definition(person_def(true)).unwrap();
    let def = Definition {
        in_root: true,
        body: DefBody::Assoc {
            name: "WorkInfo".to_string(),
            src: "Person".to_string(),
            cols: vec![col(true, "email", Typing::Text)],
        },
    };
    assert!(matches!(env.run_definition(def), Err(CozoError::LogicError(_))));
}

#[test]
fn association_layout() {
    let mut env = MemoryEnv::default();
    env.run_definition(person_def(true)).unwrap();
    let def = Definition {
        in_root: false,
        body: DefBody::Assoc {
            name: "WorkInfo".to_string(),
            src: "Person".to_string(),
            cols: vec![col(false, "email", Typing::Text)],
        },
    };
    env.run_definition(def).unwrap();
    let t = env.resolve("WorkInfo").unwrap().unwrap();
    assert_eq!(t.prefix, Prefix::Data(DataKind::Associate));
    assert_eq!(
        t.elems,
        vec![
            Value::Bool(false),
            Value::UInt(1),
            Value::Bool(true),
            Value::UInt(1),
            text("(email: Text)"),
        ]
    );
}

#[test]
fn edge_from_undefined_node_fails() {
    let mut env = MemoryEnv::default();
    let r = env.run_definition(friend_def(true));
    assert_eq!(r, Err(CozoError::UndefinedType("Person".to_string())));
}

#[test]
fn edge_from_type_alias_fails() {
    let mut env = MemoryEnv::default();
    let alias = Definition {
        in_root: true,
        body: DefBody::TypeAlias { name: "Person".to_string(), typing: Typing::Int },
    };
    env.run_definition(alias).unwrap();
    let r = env.run_definition(friend_def(true));
    assert_eq!(r, Err(CozoError::UnexpectedDataKind(DataKind::TypeAlias)));
}

#[test]
fn edge_from_edge_fails() {
    let mut env = MemoryEnv::default();
    env.run_definition(person_def(true)).unwrap();
    env.run_definition(friend_def(true)).unwrap();
    let def = Definition {
        in_root: true,
        body: DefBody::Edge {
            src: "Friend".to_string(),
            name: "Meta".to_string(),
            dst: "Person".to_string(),
            cols: None,
        },
    };
    assert_eq!(env.run_definition(def), Err(CozoError::UnexpectedDataKind(DataKind::Edge)));
}

#[test]
fn type_alias_layout() {
    let mut env = MemoryEnv::default();
    let alias = Definition {
        in_root: true,
        body: DefBody::TypeAlias {
            name: "XXY".to_string(),
            typing: Typing::NamedTuple(vec![
                ("me".to_string(), Typing::Int),
                ("f".to_string(), Typing::Nullable(Box::new(Typing::Homogeneous(Box::new(Typing::Text))))),
            ]),
        },
    };
    env.run_definition(alias).unwrap();
    let t = env.resolve("XXY").unwrap().unwrap();
    assert_eq!(t.prefix, Prefix::Data(DataKind::TypeAlias));
    assert_eq!(t.elems, vec![text("(me: Int, f: ?[Text])")]);
}

#[test]
fn root_and_local_ids_are_separate_sequences() {
    let mut env = MemoryEnv::default();
    env.run_definition(person_def(true)).unwrap();
    let local = Definition {
        in_root: false,
        body: DefBody::Node { name: "Tmp".to_string(), cols: vec![col(true, "k", Typing::UInt)] },
    };
    env.run_definition(local).unwrap();
    let t = env.resolve("Tmp").unwrap().unwrap();
    assert_eq!(t.elems[0], Value::Bool(false));
    assert_eq!(t.elems[1], Value::UInt(1));
}

#[test]
fn extract_table_id_of_value_fails() {
    let mut t = Tuple::with_data_prefix(DataKind::Value);
    t.push_int(3);
    assert_eq!(
        cozo::definition::extract_table_id(&t),
        Err(CozoError::UnexpectedDataKind(DataKind::Value))
    );
    let mut bad = Tuple::with_data_prefix(DataKind::Node);
    bad.push_int(3);
    bad.push_uint(1);
    assert_eq!(cozo::definition::extract_table_id(&bad), Err(CozoError::BadDataFormat));
    let key = Tuple::with_null_prefix();
    assert_eq!(cozo::definition::extract_table_id(&key), Err(CozoError::BadDataFormat));
    let mut good = Tuple::with_data_prefix(DataKind::Associate);
    good.push_bool(true);
    good.push_uint(7);
    assert_eq!(cozo::definition::extract_table_id(&good), Ok((DataKind::Associate, true, 7)));
}
