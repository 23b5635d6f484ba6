use bank_system::csv::read_line;
use bank_system::text::{parse_i64_range, push_i64};
use bank_system::Storage;

fn lines(text: &str) -> Vec<String> {
    text.lines().map(|l| l.to_string()).collect()
}

fn chars(s: &str) -> Vec<char> {
    s.chars().collect()
}

#[test]
fn read_line_trims_and_splits() {
    assert_eq!(read_line(&"  Alice,100 ".to_string()), Some(("Alice".to_string(), 100)));
    assert_eq!(read_line(&"\tBob,-5\r".to_string()), Some(("Bob".to_string(), -5)));
    assert_eq!(read_line(&",7".to_string()), Some(("".to_string(), 7)));
}

#[test]
fn read_line_needs_exactly_one_comma() {
    assert_eq!(read_line(&"a,b,c".to_string()), None);
    assert_eq!(read_line(&"no comma".to_string()), None);
    assert_eq!(read_line(&"".to_string()), None);
}

#[test]
fn read_line_counts_a_bad_balance_as_zero() {
    assert_eq!(read_line(&"Bob,abc".to_string()), Some(("Bob".to_string(), 0)));
    assert_eq!(read_line(&"Bob, 5".to_string()), Some(("Bob".to_string(), 0)));
    assert_eq!(read_line(&"Bob,".to_string()), Some(("Bob".to_string(), 0)));
    assert_eq!(read_line(&"Bob,-".to_string()), Some(("Bob".to_string(), 0)));
    assert_eq!(read_line(&"Bob,9223372036854775808".to_string()), Some(("Bob".to_string(), 0)));
    assert_eq!(read_line(&"Al ice ,5".to_string()), Some(("Al ice ".to_string(), 5)));
}

#[test]
fn read_line_takes_signs_and_extremes() {
    assert_eq!(read_line(&"Bob,+5".to_string()), Some(("Bob".to_string(), 5)));
    assert_eq!(
        read_line(&"Bob,-9223372036854775808".to_string()),
        Some(("Bob".to_string(), i64::MIN))
    );
    assert_eq!(
        read_line(&"Bob,9223372036854775807".to_string()),
        Some(("Bob".to_string(), i64::MAX))
    );
    assert_eq!(read_line(&"Bob,007".to_string()), Some(("Bob".to_string(), 7)));
}

#[test]
fn parse_i64_range_agrees_with_std() {
    for s in ["0", "-0", "+12", "12a", "", "-", "+", "99999999999999999999", "-9223372036854775809", "42"] {
        let cs = chars(s);
        assert_eq!(parse_i64_range(&cs, 0, cs.len()), s.parse::<i64>().ok(), "{}", s);
    }
    let cs = chars("x123y");
    assert_eq!(parse_i64_range(&cs, 1, 4), Some(123));
}

#[test]
fn push_i64_writes_decimal() {
    for v in [0i64, 7, -7, 10, 1234567890, i64::MIN, i64::MAX] {
        let mut out = String::from("n=");
        push_i64(&mut out, v);
        assert_eq!(out, format!("n={}", v));
    }
}

#[test]
fn from_csv_lines_reads_accounts() {
    let storage = Storage::from_csv_lines(&lines("Alice,10\nBob,-3\nbad line\nAlice,5\n  Carl , x\n")).unwrap();
    let mut all = storage.get_all();
    all.sort();
    assert_eq!(
        all,
        vec![("Alice".to_string(), 15), ("Bob".to_string(), -3), ("Carl ".to_string(), 0)]
    );
}

#[test]
fn from_csv_lines_refuses_overflow() {
    let text = "A,9223372036854775807\nA,1\n";
    assert!(Storage::from_csv_lines(&lines(text)).is_none());
    let text = "A,9223372036854775807\nA,-1\n";
    assert_eq!(
        Storage::from_csv_lines(&lines(text)).unwrap().get_balance(&"A".to_string()),
        Some(9223372036854775806)
    );
}

#[test]
fn empty_file_gives_empty_bank() {
    let storage = Storage::from_csv_lines(&Vec::new()).unwrap();
    assert!(storage.get_all().is_empty());
}

#[test]
fn to_csv_writes_one_line_per_account() {
    let mut storage = Storage::new();
    storage.add_user("Alice".to_string());
    storage.deposit(&"Alice".to_string(), -42).unwrap();
    assert_eq!(storage.to_csv(), "Alice,-42\n");
    assert_eq!(Storage::new().to_csv(), "");
}

#[test]
fn save_then_load_gives_the_same_accounts() {
    let mut storage = Storage::new();
    for (name, amount) in [("John", 0i64), ("Alice", i64::MIN), ("Bob", i64::MAX), ("Вася", 17), ("", 3)] {
        storage.add_user(name.to_string());
        storage.deposit(&name.to_string(), amount).unwrap();
    }
    let loaded = Storage::from_csv_lines(&lines(&storage.to_csv())).unwrap();
    let mut before = storage.get_all();
    let mut after = loaded.get_all();
    before.sort();
    after.sort();
    assert_eq!(before, after);
}

#[test]
fn default_users_start_at_zero() {
    let storage = Storage::with_default_users();
    let mut all = storage.get_all();
    all.sort();
    assert_eq!(
        all,
        vec![
            ("Alice".to_string(), 0),
            ("Bob".to_string(), 0),
            ("John".to_string(), 0),
            ("Vasya".to_string(), 0)
        ]
    );
}
