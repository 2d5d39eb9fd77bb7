use keel::keys::{decode_key, encode_key, encode_value, KeyError};
use keel::types::{f64_from_total_order_bits, f64_total_order_bits, ColumnType, Value};
use std::cmp::Ordering;

/// A small generator for reproducible random inputs.
struct Rng(u64);

impl Rng {
    fn seed(s: u64) -> Rng {
        Rng(s.wrapping_mul(0x9E37_79B9_7F4A_7C15) ^ 0x2545_F491_4F6C_DD1D)
    }
    fn next_u64(&mut self) -> u64 {
        self.0 ^= self.0 << 13;
        self.0 ^= self.0 >> 7;
        self.0 ^= self.0 << 17;
        self.0
    }
    fn below(&mut self, n: u64) -> u64 {
        self.next_u64() % n
    }
    fn range(&mut self, lo: u64, hi: u64) -> u64 {
        lo + self.below(hi - lo)
    }
    fn fill_bytes(&mut self, b: &mut [u8]) {
        for x in b.iter_mut() {
            *x = self.next_u64() as u8;
        }
    }
    fn choose_index(&mut self, n: usize) -> Option<usize> {
        if n == 0 {
            None
        } else {
            Some(self.below(n as u64) as usize)
        }
    }
}


fn copy(v: &Value) -> Value {
    match v {
        Value::Null => Value::Null,
        Value::Bool(b) => Value::Bool(*b),
        Value::Int(i) => Value::Int(*i),
        Value::BigInt(i) => Value::BigInt(*i),
        Value::Double(b) => Value::Double(*b),
        Value::Text(s) => Value::Text(s.clone()),
    }
}

/// The order of values of one column: nulls first, then by value.
fn by_value(a: &Value, b: &Value) -> Ordering {
    match (a, b) {
        (Value::Null, Value::Null) => Ordering::Equal,
        (Value::Null, _) => Ordering::Less,
        (_, Value::Null) => Ordering::Greater,
        (Value::Bool(x), Value::Bool(y)) => x.cmp(y),
        (Value::Int(x), Value::Int(y)) => x.cmp(y),
        (Value::BigInt(x), Value::BigInt(y)) => x.cmp(y),
        (Value::Double(x), Value::Double(y)) => {
            f64::from_bits(*x).total_cmp(&f64::from_bits(*y))
        }
        (Value::Text(x), Value::Text(y)) => x.cmp(y),
        _ => panic!("values of two types"),
    }
}

#[test]
fn f64_bits_roundtrip() {
    for x in [
        0.0f64,
        -0.0,
        1.0,
        -1.0,
        f64::MIN,
        f64::MAX,
        f64::INFINITY,
        f64::NEG_INFINITY,
        std::f64::consts::PI,
        -std::f64::consts::E,
    ] {
        let back = f64_from_total_order_bits(f64_total_order_bits(x.to_bits()));
        assert_eq!(back, x.to_bits(), "roundtrip {x}");
    }
}

#[test]
fn single_value_roundtrip() {
    let cases: Vec<(ColumnType, Value)> = vec![
        (ColumnType::Bool, Value::Bool(true)),
        (ColumnType::Bool, Value::Bool(false)),
        (ColumnType::Int, Value::Int(0)),
        (ColumnType::Int, Value::Int(-1)),
        (ColumnType::Int, Value::Int(i32::MIN)),
        (ColumnType::Int, Value::Int(i32::MAX)),
        (ColumnType::BigInt, Value::BigInt(-9_000_000_000)),
        (ColumnType::Double, Value::Double((-0.5f64).to_bits())),
        (ColumnType::Varchar(64), Value::Text(String::new())),
        (ColumnType::Varchar(64), Value::Text("hello".into())),
        (ColumnType::Varchar(64), Value::Text("with\0nul".into())),
        (ColumnType::Int, Value::Null),
    ];
    for (ty, v) in cases {
        let enc = encode_value(ty, &v);
        let back = decode_key(&[ty], &enc).unwrap();
        assert_eq!(back, vec![copy(&v)], "roundtrip {v:?}");
    }
}

#[test]
fn composite_roundtrip() {
    let types = [ColumnType::Int, ColumnType::Varchar(16), ColumnType::BigInt];
    let vals = vec![Value::Int(7), Value::Text("abc".into()), Value::BigInt(-3)];
    let enc = encode_key(&types, &vals);
    assert_eq!(decode_key(&types, &enc).unwrap(), vals);
}

fn assert_order_preserved(ty: ColumnType, mut vals: Vec<Value>) {
    let mut sorted: Vec<Value> = vals.iter().map(copy).collect();
    sorted.sort_by(by_value);
    vals.sort_by_key(|v| encode_value(ty, v));
    assert_eq!(sorted, vals, "order not preserved for {ty:?}");
}

#[test]
fn order_preserved_ints() {
    let mut r = Rng::seed(1);
    let mut vals = vec![Value::Null];
    for _ in 0..500 {
        vals.push(Value::Int(r.next_u64() as i32));
    }
    assert_order_preserved(ColumnType::Int, vals);
}

#[test]
fn order_preserved_bigints() {
    let mut r = Rng::seed(2);
    let mut vals = vec![Value::Null];
    for _ in 0..500 {
        vals.push(Value::BigInt(r.next_u64() as i64));
    }
    assert_order_preserved(ColumnType::BigInt, vals);
}

#[test]
fn order_preserved_doubles() {
    let mut r = Rng::seed(3);
    let mut vals = vec![Value::Null];
    for _ in 0..500 {
        let bits = r.next_u64();
        let d = f64::from_bits(bits);
        if d.is_nan() {
            continue;
        }
        vals.push(Value::Double(bits));
    }
    vals.push(Value::Double(f64::INFINITY.to_bits()));
    vals.push(Value::Double(f64::NEG_INFINITY.to_bits()));
    vals.push(Value::Double(0.0f64.to_bits()));
    vals.push(Value::Double((-0.0f64).to_bits()));
    assert_order_preserved(ColumnType::Double, vals);
}

#[test]
fn order_preserved_strings_incl_adversarial() {
    let mut r = Rng::seed(4);
    let mut vals = vec![
        Value::Null,
        Value::Text(String::new()),
        Value::Text("\0".into()),
        Value::Text("\0\0".into()),
        Value::Text("a".into()),
        Value::Text("a\0".into()),
        Value::Text("ab".into()),
    ];
    for _ in 0..500 {
        let len = r.below(10) as usize;
        let s: String = (0..len).map(|_| (r.below(4) as u8) as char).collect();
        vals.push(Value::Text(s));
    }
    assert_order_preserved(ColumnType::Varchar(64), vals);
}

#[test]
fn composite_order_preserved() {
    let mut r = Rng::seed(5);
    let types = [ColumnType::Int, ColumnType::Varchar(8)];
    let mut tuples: Vec<Vec<Value>> = Vec::new();
    for _ in 0..800 {
        let a = if r.below(6) == 0 {
            Value::Null
        } else {
            Value::Int((r.below(5) as i32) - 2)
        };
        let b = if r.below(6) == 0 {
            Value::Null
        } else {
            let len = r.below(4) as usize;
            Value::Text(
                (0..len)
                    .map(|_| (b'a' + r.below(3) as u8) as char)
                    .collect(),
            )
        };
        tuples.push(vec![a, b]);
    }
    let mut sorted: Vec<Vec<Value>> = tuples
        .iter()
        .map(|t| t.iter().map(copy).collect())
        .collect();
    sorted.sort_by(|x, y| by_value(&x[0], &y[0]).then_with(|| by_value(&x[1], &y[1])));
    tuples.sort_by_key(|t| encode_key(&types, t));
    assert_eq!(sorted, tuples, "composite order not preserved");
}

#[test]
fn keys_have_a_fixed_layout() {
    assert_eq!(encode_value(ColumnType::Int, &Value::Null), vec![0]);
    assert_eq!(
        encode_value(ColumnType::Int, &Value::Int(1)),
        vec![1, 0x80, 0, 0, 1]
    );
    assert_eq!(
        encode_value(ColumnType::Varchar(8), &Value::Text("a\0b".into())),
        vec![1, b'a', 0, 0xff, b'b', 0, 0]
    );
}

#[test]
fn damaged_keys_are_refused() {
    assert_eq!(decode_key(&[ColumnType::Int], &[]), Err(KeyError::Truncated));
    assert_eq!(
        decode_key(&[ColumnType::Int], &[1, 0, 0]),
        Err(KeyError::Truncated)
    );
    assert_eq!(
        decode_key(&[ColumnType::Int], &[9]),
        Err(KeyError::BadTag(9))
    );
    assert_eq!(
        decode_key(&[ColumnType::Varchar(4)], &[1, b'a', 0, 7]),
        Err(KeyError::BadStringEscape)
    );
    assert_eq!(
        decode_key(&[ColumnType::Varchar(4)], &[1, 0xc3, 0x28, 0, 0]),
        Err(KeyError::NotUtf8)
    );
}
