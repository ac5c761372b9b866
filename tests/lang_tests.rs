use std::collections::HashSet;

use hbx::remote::login_target;

#[test]
fn test_hash_set_extend() {
    let ans = [1, 2, 3];
    let mut set = HashSet::new();
    set.extend(ans);
    assert_eq!(set.len(), 3);
}

#[test]
fn test_char() {
    let address = "root@127.0.0.1";
    let arr: Vec<&str> = address.split('@').collect();
    assert_eq!(arr[0], "root");
    assert_eq!(arr[1], "127.0.0.1");
    let (user, host) = login_target(address, &None).unwrap();
    assert_eq!(user, arr[0]);
    assert_eq!(host, format!("{}:22", arr[1]));
}

#[test]
fn test_str_eq() {
    let s1 = String::from("hello");
    let s2 = "hello";
    assert!(s1.eq(s2));
    let s3 = "hello";
    assert!(s2.eq(s3));
}
