use spatial::vecext::RetainAndAppend;

fn contains_all(v: &Vec<i32>, items: &Vec<i32>) -> bool {
    for item in items {
        if !v.contains(item) {
            return false;
        }
    }
    true
}

#[test]
fn retain_and_append() {
    let mut v = vec![1, 2, 3, 4, 5, 6];
    let left = vec![1, 2, 3];
    let right = vec![4, 5, 6, 7];

    let mut appender = vec![7];

    v.retain_and_append(&mut appender, |x: &i32| *x < 4);
    assert!(v.len() == 3);
    assert!(contains_all(&left, &v));
    assert!(appender.len() == 4);
    assert!(contains_all(&right, &appender));
}

#[test]
fn retain_mut() {
    let mut v = vec![1, 2, 3, 4, 5, 6];
    let left = vec![0, 1, 2];

    v.retain_mut(|x| {
        *x -= 1;
        *x < 3
    });
    assert!(v.len() == 3);
    assert!(contains_all(&left, &v));
}
