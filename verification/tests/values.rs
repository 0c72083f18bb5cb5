use fuckvm::ir::{Type, Value};

#[test]
fn size_of_scalars() {
    assert_eq!(Type::Empty.size_of(), 0);
    assert_eq!(Type::Byte.size_of(), 1);
    assert_eq!(Type::Boolean.size_of(), 1);
}

#[test]
fn size_of_array_multiplies() {
    let t = Type::Array(Box::new(Type::Byte), 5);
    assert_eq!(t.size_of(), 5);
    let nested = Type::Array(Box::new(Type::Array(Box::new(Type::Byte), 3)), 4);
    assert_eq!(nested.size_of(), 12);
}

#[test]
fn size_of_struct_sums() {
    let t = Type::Struct(vec![
        Type::Byte,
        Type::Boolean,
        Type::Array(Box::new(Type::Byte), 3),
        Type::Empty,
    ]);
    assert_eq!(t.size_of(), 5);
}

#[test]
fn to_bytes_scalars() {
    assert_eq!(Value::Empty.to_bytes(), Vec::<u8>::new());
    assert_eq!(Value::Byte(7).to_bytes(), vec![7]);
    assert_eq!(Value::Boolean(true).to_bytes(), vec![1]);
    assert_eq!(Value::Boolean(false).to_bytes(), vec![0]);
}

#[test]
fn to_bytes_array_repeats() {
    let v = Value::Array(Box::new(Value::Byte(9)), 4);
    assert_eq!(v.to_bytes(), vec![9, 9, 9, 9]);
}

#[test]
fn to_bytes_struct_concatenates() {
    let v = Value::Struct(vec![
        Value::Byte(1),
        Value::Boolean(true),
        Value::Array(Box::new(Value::Byte(2)), 2),
    ]);
    assert_eq!(v.to_bytes(), vec![1, 1, 2, 2]);
}

#[test]
fn bytes_len_matches_size() {
    let t = Type::Struct(vec![Type::Byte, Type::Array(Box::new(Type::Boolean), 3)]);
    let v = Value::Struct(vec![
        Value::Byte(5),
        Value::Array(Box::new(Value::Boolean(true)), 3),
    ]);
    assert_eq!(v.to_bytes().len(), t.size_of());
}

#[test]
fn duplicate_is_equal() {
    let v = Value::Struct(vec![
        Value::Byte(1),
        Value::Array(Box::new(Value::Struct(vec![Value::Boolean(false)])), 2),
    ]);
    assert_eq!(v.duplicate(), v);
}
