use bgc::text::{
    append_joined, append_signed_decimal, chars_lt, chars_of, decimal_string, find, list_items_exec,
    str_eq, trim_bounds,
};

#[test]
fn decimal_rendering() {
    assert_eq!(decimal_string(0), "0");
    assert_eq!(decimal_string(7), "7");
    assert_eq!(decimal_string(1234567890), "1234567890");
    assert_eq!(decimal_string(u64::MAX), u64::MAX.to_string());
    for x in [0i64, -1, 42, -987654321, i64::MIN, i64::MAX] {
        let mut s = String::from("v=");
        append_signed_decimal(&mut s, x);
        assert_eq!(s, format!("v={x}"));
    }
}

#[test]
fn trimming_follows_str_trim() {
    for s in ["", "  ", " a b ", "\u{3000}x\u{a0}", "\r\nline\t", "no"] {
        let v = chars_of(s);
        let (a, b) = trim_bounds(&v);
        let t: String = v[a..b].iter().collect();
        assert_eq!(t, s.trim());
    }
}

#[test]
fn search_and_compare() {
    let hay = chars_of("abcabc");
    assert_eq!(find(&hay, &chars_of("ca")), Some(2));
    assert_eq!(find(&hay, &chars_of("abc")), Some(0));
    assert_eq!(find(&hay, &chars_of("abcd")), None);
    assert_eq!(find(&hay, &chars_of("")), Some(0));
    assert!(chars_lt(&chars_of("Apple"), &chars_of("apple")));
    assert!(chars_lt(&chars_of("ab"), &chars_of("abc")));
    assert!(!chars_lt(&chars_of("abc"), &chars_of("abc")));
    assert!(chars_lt(&chars_of("é"), &chars_of("ê")) == ("é" < "ê"));
    assert!(str_eq("ALL", "ALL"));
    assert!(!str_eq("ALL", "All"));
}

#[test]
fn list_items_and_join() {
    let src = "a, b,,c  d";
    let v = chars_of(src);
    assert_eq!(list_items_exec(src, &v, 0, v.len()), vec!["a", "b", "c", "d"]);
    assert!(list_items_exec(src, &v, 1, 3).is_empty());
    let mut out = String::from("[");
    append_joined(&mut out, &vec!["x".to_string(), "y".to_string()], "; ");
    assert_eq!(out, "[x; y");
    let mut out = String::new();
    append_joined(&mut out, &vec![], ", ");
    assert_eq!(out, "");
}

#[test]
fn trimming_twice_is_trimming_once() {
    for s in ["  a  ", "\u{2000}\u{3000}", "x", ""] {
        let v = chars_of(s);
        let (a, b) = trim_bounds(&v);
        let once: Vec<char> = v[a..b].to_vec();
        let (c, d) = trim_bounds(&once);
        assert_eq!((c, d), (0, once.len()));
    }
}
