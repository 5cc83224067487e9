use thalo::schema::{
    find_command, AggregateCommands, ArgDef, ImplDef, ImplItemDef, MethodDef, Receiver,
    ReturnShape, SchemaError,
};

fn method(name: &str, receiver: Receiver, args: &[(Option<&str>, &str)], ok: &str, err: Option<&str>) -> ImplItemDef {
    ImplItemDef::Method(MethodDef {
        name: name.to_string(),
        docs: vec![" Adds to the count.".to_string()],
        receiver,
        args: args
            .iter()
            .map(|(n, t)| ArgDef { name: n.map(|s| s.to_string()), ty: t.to_string() })
            .collect(),
        output: ReturnShape::Result { ok_type: ok.to_string(), error_type: err.map(|s| s.to_string()) },
    })
}

fn counter_impl() -> ImplDef {
    ImplDef {
        self_ident: Some("Counter".to_string()),
        items: vec![
            method("increment_by", Receiver::Shared, &[(Some("_amount"), "u32")], "CounterEvent", Some("Error")),
            method("reset", Receiver::Shared, &[], "Vec < CounterEvent >", Some(":: awto_es :: Error")),
        ],
    }
}

#[test]
fn schema_names_and_methods() {
    let c = AggregateCommands::new(&counter_impl()).unwrap();
    assert_eq!(c.ident, "Counter");
    assert_eq!(c.command_ident, "CounterCommand");
    assert_eq!(c.event_ident, "CounterEvent");
    assert_eq!(c.methods.len(), 2);
    assert_eq!(c.methods[0].args[0].ident, "amount");
    assert_eq!(c.methods[0].args[0].ty, "u32");
    assert!(!c.methods[0].is_vec);
    assert!(c.methods[1].is_vec);
}

#[test]
fn schema_variant_names_follow_heck() {
    let c = AggregateCommands::new(&counter_impl()).unwrap();
    let v = c.command_variants();
    assert_eq!(v[0].variant, "IncrementBy");
    assert_eq!(v[0].wire_name, "INCREMENT_BY");
    assert_eq!(v[0].method, "increment_by");
    assert_eq!(v[0].docs, vec![" Adds to the count.".to_string()]);
    assert_eq!(v[1].variant, "Reset");
    assert_eq!(v[1].wire_name, "RESET");
    assert_eq!(find_command(&v, "RESET"), Some(1));
    assert_eq!(find_command(&v, "Reset"), None);
}

#[test]
fn schema_errors_name_the_item() {
    let mut i = counter_impl();
    i.self_ident = None;
    assert_eq!(AggregateCommands::new(&i).unwrap_err(), SchemaError::NotOnStruct);

    let mut i = counter_impl();
    i.items.push(ImplItemDef::Other);
    assert_eq!(AggregateCommands::new(&i).unwrap_err(), SchemaError::UnexpectedItem { item: 2 });

    let mut i = counter_impl();
    i.items[1] = method("reset", Receiver::Mutable, &[], "Vec<E>", Some("Error"));
    assert_eq!(AggregateCommands::new(&i).unwrap_err(), SchemaError::MutableSelf { item: 1 });

    let mut i = counter_impl();
    i.items[0] = method("x", Receiver::Missing, &[], "E", Some("Error"));
    assert_eq!(AggregateCommands::new(&i).unwrap_err(), SchemaError::MissingSelf { item: 0 });

    let mut i = counter_impl();
    i.items[0] = method("x", Receiver::Shared, &[(Some("a"), "u8"), (None, "u8"), (None, "u8")], "E", Some("Error"));
    assert_eq!(AggregateCommands::new(&i).unwrap_err(), SchemaError::UnsupportedArgument { item: 0, arg: 1 });

    let mut i = counter_impl();
    i.items[1] = method("reset", Receiver::Shared, &[], "E", Some("MyError"));
    assert_eq!(AggregateCommands::new(&i).unwrap_err(), SchemaError::WrongReturnType { item: 1 });

    let mut i = counter_impl();
    i.items[1] = ImplItemDef::Method(MethodDef {
        name: "reset".to_string(),
        docs: vec![],
        receiver: Receiver::Shared,
        args: vec![],
        output: ReturnShape::Other,
    });
    assert_eq!(AggregateCommands::new(&i).unwrap_err(), SchemaError::WrongReturnType { item: 1 });
}
