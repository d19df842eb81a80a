use store::generator::Generator;

#[test]
fn test_gen_1() {
    let mut g = Generator::new();
    assert!(g.create_generator("test", None).is_ok());
    assert!(g.create_generator("test", None).is_err());
    assert!(g.gen_key("test").is_ok());
    assert!(g.gen_key("test1").is_err());
}

#[test]
fn test_remove_generator_allows_recreating_the_same_name() {
    let mut g = Generator::new();
    g.create_generator("test", None).unwrap();
    g.remove_generator("test").unwrap();
    assert!(g.gen_key("test").is_err());
    g.create_generator("test", None).unwrap();
    assert_eq!(g.gen_key("test").unwrap(), 0);
}

#[test]
fn test_remove_generator_missing_name_is_a_no_op() {
    let mut g = Generator::new();
    assert!(g.remove_generator("nope").is_ok());
}

#[test]
fn test_gen_2() {
    let mut g = Generator::new();
    g.create_generator("test", None).unwrap();
    assert_eq!(g.gen_key("test").unwrap(), 0);
    assert_eq!(g.gen_key("test").unwrap(), 1);
    assert_eq!(g.gen_key("test").unwrap(), 2);
}

#[test]
fn test_gen_3() {
    let mut g = Generator::new();
    g.create_generator("test", Some(100)).unwrap();
    assert_eq!(g.gen_key("test").unwrap(), 100);
    let mut g = Generator::new();
    g.create_generator("test1", None).unwrap();
    g.create_generator("test2", None).unwrap();
    for _ in 0..100 {
        let _ = g.gen_key("test1").unwrap();
    }
    for _ in 0..50 {
        let _ = g.gen_key("test2").unwrap();
    }
    let a = g.gen_key("test1").unwrap();
    assert_eq!(a, 100);
    let a = g.gen_key("test2").unwrap();
    assert_eq!(a, 50);
}

#[test]
fn test_ensure_at_least_never_lowers_and_creates_when_missing() {
    let mut g = Generator::new();
    g.create_generator("s", Some(10)).unwrap();
    g.ensure_at_least("s", 5);
    assert_eq!(g.gen_key("s").unwrap(), 10);
    g.ensure_at_least("s", 40);
    assert_eq!(g.gen_key("s").unwrap(), 40);
    g.ensure_at_least("fresh", 7);
    assert_eq!(g.gen_key("fresh").unwrap(), 7);
}

#[test]
fn a_chunk_is_logged_ahead_of_its_values() {
    let mut g = Generator::new();
    g.attach_logger();
    g.create_generator("s", Some(5)).unwrap();
    let created = g.outbox.len();
    for _ in 0..32 {
        g.gen_key("s").unwrap();
    }
    // One record covered all thirty-two values.
    let after_one_chunk = g.outbox.len();
    assert_eq!(after_one_chunk - created, 1);
    g.gen_key("s").unwrap();
    assert_eq!(g.outbox.len() - after_one_chunk, 1);
    // A checkpoint starts the chunks anew.
    g.start_chunks();
    let before = g.outbox.len();
    g.gen_key("s").unwrap();
    assert_eq!(g.outbox.len() - before, 1);
}

#[test]
fn values_are_carried_over() {
    let mut g = Generator::new();
    g.create_generator("a", Some(3)).unwrap();
    g.create_generator("b", None).unwrap();
    g.gen_key("a").unwrap();
    let values = g.get_values();
    let mut h = Generator::new();
    h.set_values(&values);
    assert_eq!(h.gen_key("a").unwrap(), 4);
    assert_eq!(h.gen_key("b").unwrap(), 0);
    assert!(!h.has("c"));
    assert_eq!(h.peek("a"), Some(5));
    assert_eq!(h.peek("c"), None);
}
