use regexp::iterators::{flat_map, flatten};

#[test]
fn lib_empty() {
    assert_eq!(flatten(Vec::<Vec<()>>::new()).count(), 0);
}

#[test]
fn lib_empty_wide() {
    assert_eq!(flatten(vec![Vec::<()>::new(), vec![], vec![]]).count(), 0);
}

#[test]
fn lib_one() {
    assert_eq!(flatten(vec![vec!["a"]]).count(), 1);
}

#[test]
fn lib_two() {
    assert_eq!(flatten(vec![vec!["a", "b"]]).count(), 2);
}

#[test]
fn lib_two_wide() {
    assert_eq!(flatten(vec![vec!["a"], vec!["b"]]).count(), 2);
}

#[test]
fn lib_reverse() {
    let mut iter = flatten(vec![vec!["a", "b"]]);
    let mut reversed: Vec<&str> = Vec::new();
    while let Some(x) = iter.next_back() {
        reversed.push(x);
    }
    assert_eq!(reversed, vec!["b", "a"]);
}

#[test]
fn lib_reverse_wide() {
    let mut iter = flatten(vec![vec!["a"], vec!["b"]]);
    let mut reversed: Vec<&str> = Vec::new();
    while let Some(x) = iter.next_back() {
        reversed.push(x);
    }
    assert_eq!(reversed, vec!["b", "a"]);
}

#[test]
fn lib_both_ends() {
    let mut iter = flatten(vec![vec!["a1", "a2", "a3"], vec!["b1", "b2", "b3"]]);
    assert_eq!(iter.next(), Some("a1"));
    assert_eq!(iter.next_back(), Some("b3"));
    assert_eq!(iter.next(), Some("a2"));
    assert_eq!(iter.next_back(), Some("b2"));
    assert_eq!(iter.next(), Some("a3"));
    assert_eq!(iter.next_back(), Some("b1"));
    assert_eq!(iter.next(), None);
    assert_eq!(iter.next_back(), None);
}

#[test]
fn flatmap_empty() {
    assert_eq!(flat_map(Vec::<Vec<()>>::new(), |_| Vec::<()>::new()).count(), 0);
}

#[test]
fn flatmap_empty_wide() {
    assert_eq!(flat_map(vec![1, 2, 3], |_| Vec::<()>::new()).count(), 0);
}

#[test]
fn flatmap_one() {
    assert_eq!(flat_map(vec![vec!["a"]], |x| x).count(), 1);
}

#[test]
fn flatmap_two() {
    assert_eq!(flat_map(vec![vec!["a", "b"]], |x| x).count(), 2);
}

#[test]
fn flatmap_two_wide() {
    assert_eq!(flat_map(vec![vec!["a"], vec!["b"]], |x| x).count(), 2);
}

#[test]
fn flatmap_reverse() {
    let mut iter = flat_map(vec![vec!["a", "b"]], |x| x);
    let mut reversed: Vec<&str> = Vec::new();
    while let Some(x) = iter.next_back() {
        reversed.push(x);
    }
    assert_eq!(reversed, vec!["b", "a"]);
}

#[test]
fn flatmap_reverse_wide() {
    let mut iter = flat_map(vec![vec!["a"], vec!["b"]], |x| x);
    let mut reversed: Vec<&str> = Vec::new();
    while let Some(x) = iter.next_back() {
        reversed.push(x);
    }
    assert_eq!(reversed, vec!["b", "a"]);
}

#[test]
fn flatmap_both_ends() {
    let mut iter = flat_map(vec![vec!["a1", "a2", "a3"], vec!["b1", "b2", "b3"]], |x| x);
    assert_eq!(iter.next(), Some("a1"));
    assert_eq!(iter.next_back(), Some("b3"));
    assert_eq!(iter.next(), Some("a2"));
    assert_eq!(iter.next_back(), Some("b2"));
    assert_eq!(iter.next(), Some("a3"));
    assert_eq!(iter.next_back(), Some("b1"));
    assert_eq!(iter.next(), None);
    assert_eq!(iter.next_back(), None);
}

#[test]
fn flatmap_really_maps() {
    let mut iter = flat_map(vec![1i64, 2, 3], |n| vec![n, n * 10]);
    let mut out: Vec<i64> = Vec::new();
    while let Some(x) = iter.next() {
        out.push(x);
    }
    assert_eq!(out, vec![1, 10, 2, 20, 3, 30]);
}
