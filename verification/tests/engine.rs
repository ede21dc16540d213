use interactive::{Command, InputManager, Manager, Plan, Query, Rule, Datum, VectorFrom, Error, Time};
use interactive::eval::{eval_plan, multiplicity_of, difference_all, Collection};

fn read(name: &str) -> Plan<u32> {
    Plan::Read { name: String::from(name) }
}

#[test]
fn projection_selects_usize() {
    let data: Vec<usize> = vec![10, 20, 30];
    for i in 0..data.len() {
        let e = <usize as Datum>::projection(i);
        assert_eq!(<usize as Datum>::subject_to(&data, &e), data[i]);
    }
}

#[test]
fn projection_selects_u32() {
    let data: Vec<u32> = vec![7, 8, 9];
    for i in 0..data.len() {
        let e = <u32 as Datum>::projection(i);
        assert_eq!(<u32 as Datum>::subject_to(&data, &e), data[i]);
    }
}

#[test]
fn builder_appends_in_order() {
    let r1 = Rule { name: String::from("a"), plan: read("x") };
    let r2 = Rule { name: String::from("b"), plan: read("y") };
    let q = Query::new().add_rule(r1).add_rule(r2);
    assert_eq!(q.rules.len(), 2);
    assert_eq!(q.rules[0].name, "a");
    assert_eq!(q.rules[1].name, "b");
    let q = q.add_import(read("i1"), vec![0]).add_import(read("i2"), vec![1]);
    assert_eq!(q.imports.len(), 2);
    assert_eq!(q.imports[0].1, vec![0]);
    assert_eq!(q.imports[1].1, vec![1]);
    let q = q.add_publish(read("a"), vec![0]);
    assert_eq!(q.publish.len(), 1);
    match &q.publish[0].0 {
        Plan::Read { name } => assert_eq!(name, "a"),
        _ => panic!("publish plan should be a read"),
    }
}

#[test]
fn rule_into_query_is_singleton() {
    let r = Rule { name: String::from("only"), plan: read("src") };
    let q = r.into_query();
    assert_eq!(q.rules.len(), 1);
    assert_eq!(q.rules[0].name, "only");
    assert_eq!(q.imports.len(), 0);
    assert_eq!(q.publish.len(), 0);
}

fn sample_command() -> Command<u32> {
    let body = Plan::Union {
        left: Box::new(read("edges")),
        right: Box::new(Plan::Derive {
            input: Box::new(Plan::Join {
                left: Box::new(read("tc")),
                right: Box::new(read("edges")),
                left_key: vec![1],
                right_key: vec![0],
            }),
            exprs: vec![0, 3],
        }),
    };
    let fix = Plan::Fix { name: String::from("tc"), arity: 2, body: Box::new(body) };
    let diff = Plan::Difference { left: Box::new(read("l")), right: Box::new(read("r")) };
    let q = Query::new()
        .add_rule(Rule { name: String::from("tc"), plan: fix })
        .add_rule(Rule { name: String::from("d"), plan: diff })
        .add_import(read("edges"), vec![0])
        .add_publish(read("tc"), vec![0, 1]);
    q.into_command()
}

#[test]
fn codec_round_trip() {
    let c = sample_command();
    let bytes = c.encode();
    let back: Command<u32> = Command::decode(&bytes).expect("round trip decodes");
    // Re-encoding must reproduce the wire form byte for byte, and the
    // decoded structure must match field by field.
    assert_eq!(back.encode(), bytes);
    let Command::Query(q0) = &c;
    let Command::Query(q1) = &back;
    assert_eq!(q0.rules.len(), q1.rules.len());
    assert_eq!(q0.rules[0].name, q1.rules[0].name);
    assert_eq!(q0.rules[1].name, q1.rules[1].name);
    assert_eq!(q0.imports.len(), q1.imports.len());
    assert_eq!(q0.imports[0].1, q1.imports[0].1);
    assert_eq!(q0.publish[0].1, q1.publish[0].1);
    match &q1.rules[0].plan {
        Plan::Fix { name, arity, body } => {
            assert_eq!(name, "tc");
            assert_eq!(*arity, 2);
            match body.as_ref() {
                Plan::Union { .. } => {},
                _ => panic!("fix body should be a union"),
            }
        },
        _ => panic!("first rule should be a fixpoint"),
    }
}

#[test]
fn codec_rejects_garbage() {
    let junk: Vec<u8> = vec![9, 9, 9];
    assert_eq!(Command::<u32>::decode(&junk).err(), Some(Error::Serialization));
    let empty: Vec<u8> = Vec::new();
    assert_eq!(Command::<u32>::decode(&empty).err(), Some(Error::Serialization));
    // A valid payload with a trailing byte is refused whole.
    let mut bytes = sample_command().encode();
    bytes.push(0);
    assert_eq!(Command::<u32>::decode(&bytes).err(), Some(Error::Serialization));
}

#[test]
fn time_orders_by_nanos() {
    let a = Time::new(1, 999_999_999);
    let b = Time::new(2, 0);
    assert!(a.le(&b));
    assert!(!b.le(&a));
    assert!(a.le(&a));
}

#[test]
fn diff_cancellation_nets_to_zero() {
    let mut inputs: InputManager<u32> = InputManager::new();
    inputs.get_or_create_input(&String::from("in"), 2);
    let tup = vec![4u32, 5u32];
    let before = Time::new(0, 0);
    let t0 = Time::new(1, 0);
    let t1 = Time::new(2, 0);
    let after = Time::new(3, 0);
    inputs.update_input(&String::from("in"), tup.clone(), t0, 1).unwrap();
    inputs.update_input(&String::from("in"), tup.clone(), t1, -1).unwrap();
    let c0 = inputs.collection_at(&String::from("in"), &before).unwrap();
    assert_eq!(multiplicity_of(&c0, &tup), 0);
    let cmid = inputs.collection_at(&String::from("in"), &t0).unwrap();
    assert_eq!(multiplicity_of(&cmid, &tup), 1);
    let cend = inputs.collection_at(&String::from("in"), &after).unwrap();
    assert_eq!(multiplicity_of(&cend, &tup), 0);
}

#[test]
fn input_manager_reports_faults() {
    let mut inputs: InputManager<u32> = InputManager::new();
    assert_eq!(
        inputs.update_input(&String::from("none"), vec![1], Time::new(0, 0), 1),
        Err(Error::NotFound)
    );
    inputs.get_or_create_input(&String::from("in"), 2);
    assert_eq!(
        inputs.update_input(&String::from("in"), vec![1, 2, 3], Time::new(0, 0), 1),
        Err(Error::OutOfRange)
    );
    assert_eq!(inputs.update_input(&String::from("in"), vec![1, 2], Time::new(0, 0), 1), Ok(()));
}

#[test]
fn get_or_create_is_idempotent() {
    let mut inputs: InputManager<u32> = InputManager::new();
    let h1 = inputs.get_or_create_input(&String::from("in"), 2);
    let h2 = inputs.get_or_create_input(&String::from("in"), 7);
    assert_eq!(h1, h2);
    // The first writer's arity wins.
    assert_eq!(inputs.entries[h1].1.arity, 2);
}

fn env_with(name: &str, rows: Vec<(Vec<u32>, isize)>) -> Vec<(String, Collection<u32>)> {
    vec![(String::from(name), rows)]
}

#[test]
fn join_multiplies_multiplicities() {
    // A = {(1, 10)}, B = {(1, 20)}: one joined row; a second B row with
    // the same key yields two joined rows in total.
    let mut env = vec![
        (String::from("a"), vec![(vec![1u32, 10], 1isize)]),
        (String::from("b"), vec![(vec![1u32, 20], 1isize)]),
    ];
    let plan: Plan<u32> = Plan::Join {
        left: Box::new(read("a")),
        right: Box::new(read("b")),
        left_key: vec![0],
        right_key: vec![0],
    };
    let out = eval_plan(&plan, &mut env, 8).unwrap();
    assert_eq!(out.len(), 1);
    assert_eq!(out[0].0, vec![1, 10, 1, 20]);
    assert_eq!(out[0].1, 1);
    env[1].1.push((vec![1u32, 30], 1isize));
    let out = eval_plan(&plan, &mut env, 8).unwrap();
    assert_eq!(out.len(), 2);
    assert_eq!(multiplicity_of(&out, &vec![1, 10, 1, 20]), 1);
    assert_eq!(multiplicity_of(&out, &vec![1, 10, 1, 30]), 1);
}

#[test]
fn union_adds_and_difference_subtracts() {
    let mut env = vec![
        (String::from("a"), vec![(vec![5u32], 2isize)]),
        (String::from("b"), vec![(vec![5u32], 3isize)]),
    ];
    let union: Plan<u32> = Plan::Union { left: Box::new(read("a")), right: Box::new(read("b")) };
    let out = eval_plan(&union, &mut env, 8).unwrap();
    assert_eq!(multiplicity_of(&out, &vec![5]), 5);
    let diff: Plan<u32> =
        Plan::Difference { left: Box::new(read("a")), right: Box::new(read("b")) };
    let out = eval_plan(&diff, &mut env, 8).unwrap();
    assert_eq!(multiplicity_of(&out, &vec![5]), -1);
}

#[test]
fn derive_keeps_multiplicities() {
    let mut env = env_with("a", vec![(vec![1u32, 2, 3], 4isize)]);
    let plan: Plan<u32> =
        Plan::Derive { input: Box::new(read("a")), exprs: vec![2, 0] };
    let out = eval_plan(&plan, &mut env, 8).unwrap();
    assert_eq!(out.len(), 1);
    assert_eq!(out[0].0, vec![3, 1]);
    assert_eq!(out[0].1, 4);
}

#[test]
fn derive_out_of_range_faults() {
    let mut env = env_with("a", vec![(vec![1u32], 1isize)]);
    let plan: Plan<u32> = Plan::Derive { input: Box::new(read("a")), exprs: vec![3] };
    assert_eq!(eval_plan(&plan, &mut env, 8), Err(Error::OutOfRange));
}

#[test]
fn read_of_missing_name_faults() {
    let mut env = env_with("a", vec![]);
    assert_eq!(eval_plan(&read("zzz"), &mut env, 8), Err(Error::NotFound));
}

#[test]
fn negating_minimum_diff_faults() {
    let bottom: Collection<u32> = vec![(vec![1], isize::MIN)];
    assert_eq!(difference_all(Vec::new(), &bottom), Err(Error::DiffOverflow));
}

fn transitive_closure_plan() -> Plan<u32> {
    let step = Plan::Derive {
        input: Box::new(Plan::Join {
            left: Box::new(read("tc")),
            right: Box::new(read("edges")),
            left_key: vec![1],
            right_key: vec![0],
        }),
        exprs: vec![0, 3],
    };
    Plan::Fix {
        name: String::from("tc"),
        arity: 2,
        body: Box::new(Plan::Union { left: Box::new(read("edges")), right: Box::new(step) }),
    }
}

#[test]
fn fixpoint_reaches_transitive_closure() {
    let edges = vec![
        (vec![1u32, 2], 1isize),
        (vec![2u32, 3], 1isize),
        (vec![3u32, 4], 1isize),
    ];
    let mut env = vec![(String::from("edges"), edges)];
    // The longest chain has three edges, so a few rounds suffice.
    let out = eval_plan(&transitive_closure_plan(), &mut env, 8).unwrap();
    for pair in [[1u32, 2], [2, 3], [3, 4], [1, 3], [2, 4], [1, 4]] {
        assert_eq!(multiplicity_of(&out, &pair.to_vec()), 1, "pair {:?}", pair);
    }
    assert_eq!(multiplicity_of(&out, &vec![4, 1]), 0);
    // The fixpoint is stable: the same plan over the same inputs, with a
    // far larger round bound, yields the same multiplicities.
    let out2 = eval_plan(&transitive_closure_plan(), &mut env, 100).unwrap();
    for pair in [[1u32, 2], [1, 4], [2, 4]] {
        assert_eq!(
            multiplicity_of(&out2, &pair.to_vec()),
            multiplicity_of(&out, &pair.to_vec())
        );
    }
}

#[test]
fn install_rejects_duplicate_rule_names_atomically() {
    let mut mgr: Manager<u32> = Manager::new();
    let q = Query::new()
        .add_rule(Rule { name: String::from("r"), plan: read("x") })
        .add_rule(Rule { name: String::from("r"), plan: read("x") });
    let r = q.into_command().install(&mut mgr, &Time::new(0, 0), 8);
    assert_eq!(r, Err(Error::NameCollision));
    assert_eq!(mgr.traces.entries.len(), 0);
    assert_eq!(mgr.inputs.entries.len(), 0);
}

#[test]
fn install_rejects_unresolved_import_atomically() {
    let mut mgr: Manager<u32> = Manager::new();
    mgr.inputs.get_or_create_input(&String::from("edges"), 2);
    let q = Query::new()
        .add_rule(Rule { name: String::from("copy"), plan: read("edges") })
        .add_import(read("missing"), vec![0]);
    let r = q.into_command().install(&mut mgr, &Time::new(0, 0), 8);
    assert_eq!(r, Err(Error::Unresolved));
    // The registries are exactly as before: no partial registration.
    assert_eq!(mgr.traces.entries.len(), 0);
    assert_eq!(mgr.inputs.entries.len(), 1);
    assert_eq!(mgr.inputs.entries[0].1.updates.len(), 0);
}

#[test]
fn install_publishes_and_shares_arrangements() {
    let mut mgr: Manager<u32> = Manager::new();
    mgr.inputs.get_or_create_input(&String::from("edges"), 2);
    mgr.inputs
        .update_input(&String::from("edges"), vec![1, 2], Time::new(0, 0), 1)
        .unwrap();
    mgr.inputs
        .update_input(&String::from("edges"), vec![2, 3], Time::new(0, 0), 1)
        .unwrap();
    // First query publishes the transitive closure under "tc".
    let q1 = Query::new()
        .add_rule(Rule { name: String::from("tc"), plan: transitive_closure_plan() })
        .add_publish(read("tc"), vec![0]);
    q1.into_command().install(&mut mgr, &Time::new(1, 0), 8).unwrap();
    let h = mgr.traces.get_arrangement(&String::from("tc")).expect("published");
    assert_eq!(mgr.traces.entries[h].1.refcount, 1);
    assert_eq!(multiplicity_of(&mgr.traces.entries[h].1.content, &vec![1, 3]), 1);
    // Two further queries import the published name and resolve to the
    // same handle; the refcount counts every consumer.
    let q2 = Query::new()
        .add_rule(Rule { name: String::from("use2"), plan: read("tc") })
        .add_import(read("tc"), vec![0]);
    q2.into_command().install(&mut mgr, &Time::new(1, 0), 8).unwrap();
    let q3 = Query::new()
        .add_rule(Rule { name: String::from("use3"), plan: read("tc") })
        .add_import(read("tc"), vec![0]);
    q3.into_command().install(&mut mgr, &Time::new(1, 0), 8).unwrap();
    let h2 = mgr.traces.get_arrangement(&String::from("tc")).unwrap();
    let h3 = mgr.traces.get_arrangement(&String::from("tc")).unwrap();
    assert_eq!(h2, h);
    assert_eq!(h3, h);
    assert!(mgr.traces.entries[h].1.refcount >= 2);
    // Releasing one consumer leaves the arrangement alive for the rest.
    mgr.traces.release(&String::from("tc"));
    let h4 = mgr.traces.get_arrangement(&String::from("tc")).expect("still shared");
    assert_eq!(multiplicity_of(&mgr.traces.entries[h4].1.content, &vec![1, 3]), 1);
}

#[test]
fn install_rejects_out_of_range_publish_keys() {
    let mut mgr: Manager<u32> = Manager::new();
    mgr.inputs.get_or_create_input(&String::from("edges"), 2);
    let q = Query::new()
        .add_rule(Rule { name: String::from("copy"), plan: read("edges") })
        .add_publish(read("copy"), vec![5]);
    let r = q.into_command().install(&mut mgr, &Time::new(0, 0), 8);
    assert_eq!(r, Err(Error::OutOfRange));
    assert_eq!(mgr.traces.entries.len(), 0);
}

#[test]
fn release_removes_last_reference() {
    let mut mgr: Manager<u32> = Manager::new();
    let h = mgr.traces.register_publish(&String::from("tmp"), vec![0], 1, vec![(vec![9u32], 1)]);
    assert_eq!(mgr.traces.entries[h].1.refcount, 1);
    mgr.traces.release(&String::from("tmp"));
    assert!(mgr.traces.get_arrangement(&String::from("tmp")).is_none());
}

#[test]
fn codec_handles_multibyte_names() {
    // Names with multi-byte characters exercise real UTF-8 decoding on
    // the way back from the wire.
    let q: Query<u32> = Query::new()
        .add_rule(Rule { name: String::from("r\u{00e9}gle\u{2192}"), plan: read("\u{00fc}ber") });
    let bytes = q.into_command().encode();
    let back: Command<u32> = Command::decode(&bytes).expect("multibyte name decodes");
    let Command::Query(q1) = &back;
    assert_eq!(q1.rules[0].name, "r\u{00e9}gle\u{2192}");
    match &q1.rules[0].plan {
        Plan::Read { name } => assert_eq!(name, "\u{00fc}ber"),
        _ => panic!("plan should be a read"),
    }
}

#[test]
fn install_rejects_rule_reading_missing_name() {
    let mut mgr: Manager<u32> = Manager::new();
    let q = Query::new().add_rule(Rule { name: String::from("r"), plan: read("absent") });
    let r = q.into_command().install(&mut mgr, &Time::new(0, 0), 8);
    assert_eq!(r, Err(Error::Unresolved));
    assert_eq!(mgr.traces.entries.len(), 0);
}

#[test]
fn later_rules_read_earlier_rules() {
    let mut mgr: Manager<u32> = Manager::new();
    mgr.inputs.get_or_create_input(&String::from("base"), 1);
    mgr.inputs
        .update_input(&String::from("base"), vec![7], Time::new(0, 0), 1)
        .unwrap();
    let q = Query::new()
        .add_rule(Rule { name: String::from("first"), plan: read("base") })
        .add_rule(Rule { name: String::from("second"), plan: read("first") })
        .add_publish(read("second"), vec![0]);
    q.into_command().install(&mut mgr, &Time::new(1, 0), 8).unwrap();
    let h = mgr.traces.get_arrangement(&String::from("second")).unwrap();
    assert_eq!(multiplicity_of(&mgr.traces.entries[h].1.content, &vec![7]), 1);
}

#[test]
fn validation_precedes_evaluation_faults() {
    // A query that both references an unregistered import and carries a
    // rule whose evaluation overflows the diff range is rejected with the
    // validation error: checks run before any rule is evaluated.
    let mut mgr: Manager<u32> = Manager::new();
    mgr.inputs.get_or_create_input(&String::from("a"), 1);
    mgr.inputs
        .update_input(&String::from("a"), vec![1], Time::new(0, 0), isize::MAX)
        .unwrap();
    let overflowing_join: Plan<u32> = Plan::Join {
        left: Box::new(read("a")),
        right: Box::new(read("a")),
        left_key: vec![0],
        right_key: vec![0],
    };
    let q = Query::new()
        .add_rule(Rule { name: String::from("r"), plan: overflowing_join })
        .add_import(read("missing"), vec![0]);
    let r = q.into_command().install(&mut mgr, &Time::new(1, 0), 4);
    assert_eq!(r, Err(Error::Unresolved));
    assert_eq!(mgr.traces.entries.len(), 0);
    // With validation passing, the evaluation fault surfaces instead.
    let overflowing_join: Plan<u32> = Plan::Join {
        left: Box::new(read("a")),
        right: Box::new(read("a")),
        left_key: vec![0],
        right_key: vec![0],
    };
    let q = Query::new().add_rule(Rule { name: String::from("r"), plan: overflowing_join });
    let r = q.into_command().install(&mut mgr, &Time::new(1, 0), 4);
    assert_eq!(r, Err(Error::DiffOverflow));
    assert_eq!(mgr.traces.entries.len(), 0);
}

#[test]
fn vector_from_orders_components() {
    let v = <usize as VectorFrom<(usize, usize)>>::vector_from((3, 9));
    assert_eq!(v, vec![3, 9]);
    let w = <u32 as VectorFrom<(u32, u32)>>::vector_from((7, 2));
    assert_eq!(w, vec![7, 2]);
}
