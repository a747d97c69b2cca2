use vexpr::interpreter::{Context, Value};

fn set(context: &mut Context, name: &str, value: i64) {
    context.set(&name.to_string(), &Value::Int(value));
}

fn get(context: &mut Context, name: &str) -> Option<Value> {
    context.get(&name.to_string())
}

#[test]
fn new_environment_is_empty() {
    let mut context = Context::new();
    assert!(context.stack.is_empty());
    assert_eq!(get(&mut context, "x"), None);
}

#[test]
fn set_appends_new_names_in_order() {
    let mut context = Context::new();
    set(&mut context, "a", 1);
    set(&mut context, "b", 2);
    set(&mut context, "c", 3);
    let names: Vec<&str> = context.stack.iter().map(|(name, _)| name.as_str()).collect();
    assert_eq!(names, vec!["a", "b", "c"]);
    assert_eq!(get(&mut context, "b"), Some(Value::Int(2)));
}

#[test]
fn set_overwrites_in_place() {
    let mut context = Context::new();
    set(&mut context, "a", 1);
    set(&mut context, "b", 2);
    set(&mut context, "a", 10);
    assert_eq!(context.stack.len(), 2);
    assert_eq!(context.stack[0], ("a".to_string(), Value::Int(10)));
    assert_eq!(context.stack[1], ("b".to_string(), Value::Int(2)));
}

#[test]
fn get_leaves_the_environment_as_it_is() {
    let mut context = Context::new();
    set(&mut context, "a", 1);
    assert_eq!(get(&mut context, "a"), Some(Value::Int(1)));
    assert_eq!(get(&mut context, "zz"), None);
    assert_eq!(context.stack, vec![("a".to_string(), Value::Int(1))]);
}

#[test]
fn get_finds_the_first_binding() {
    let mut context = Context::new();
    context.stack.push(("a".to_string(), Value::Int(1)));
    context.stack.push(("a".to_string(), Value::Int(2)));
    assert_eq!(get(&mut context, "a"), Some(Value::Int(1)));
    set(&mut context, "a", 5);
    assert_eq!(context.stack[0].1, Value::Int(5));
    assert_eq!(context.stack[1].1, Value::Int(2));
}

#[test]
fn copy_of_an_environment_is_its_own() {
    let mut context = Context::new();
    set(&mut context, "a", 1);
    let mut copy = context.clone();
    set(&mut copy, "a", 2);
    assert_eq!(get(&mut context, "a"), Some(Value::Int(1)));
    assert_eq!(get(&mut copy, "a"), Some(Value::Int(2)));
}
