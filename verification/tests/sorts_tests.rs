use regexp::sorts::bubblesort::BubbleSort;
use regexp::sorts::heapsort::HeapSort;
use regexp::sorts::insertionsort::InsertionSort;
use regexp::sorts::mergesort::Mergesort;
use regexp::sorts::quicksort::QuickSort;
use regexp::sorts::selectionsort::SelectionSort;
use regexp::sorts::{Sorter, StdSorter, StdUnstableSorter};

#[test]
fn bubblesort_works() {
    let mut things: Vec<i64> = vec![3, 2, 1, 4];
    BubbleSort.sort(&mut things);
    assert_eq!(things, vec![1, 2, 3, 4]);
}

#[test]
fn heapsort_it_works() {
    let mut things: Vec<i64> = vec![3, 2, 1, 4];
    HeapSort.sort(&mut things);
    assert_eq!(things, vec![1, 2, 3, 4]);
}

#[test]
fn insertionsort_it_works() {
    let mut things: Vec<i64> = vec![3, 2, 1, 4];
    InsertionSort::new(false).sort(&mut things);
    assert_eq!(things, vec![1, 2, 3, 4]);
}

#[test]
fn it_works_smart() {
    let mut things: Vec<i64> = vec![3, 2, 1, 4];
    InsertionSort::new(true).sort(&mut things);
    assert_eq!(things, vec![1, 2, 3, 4]);
}

#[test]
fn std_works() {
    let mut things: Vec<i64> = vec![3, 2, 1, 4];
    StdSorter.sort(&mut things);
    assert_eq!(things, vec![1, 2, 3, 4]);
}

#[test]
fn mergesort_it_works() {
    let mut things: Vec<i64> = vec![3, 2, 1, 4];
    Mergesort.sort(&mut things);
    assert_eq!(things, vec![1, 2, 3, 4]);
}

#[test]
fn quicksort_it_works() {
    let mut things: Vec<i64> = vec![3, 2, 1, 4];
    QuickSort.sort(&mut things);
    assert_eq!(things, vec![1, 2, 3, 4]);
}

#[test]
fn selectionsort_it_works() {
    let mut things: Vec<i64> = vec![3, 2, 1, 4];
    SelectionSort.sort(&mut things);
    assert_eq!(things, vec![1, 2, 3, 4]);
}

#[test]
fn sorters_agree_on_hard_cases() {
    let cases: Vec<Vec<i64>> = vec![
        vec![],
        vec![7],
        vec![2, 1],
        vec![5, 5, 5, 5],
        vec![9, -3, 0, 9, -3, 7, 1, 1],
        vec![1, 2, 3, 4, 5],
        vec![5, 4, 3, 2, 1],
    ];
    for case in cases {
        let mut expected = case.clone();
        StdUnstableSorter.sort(&mut expected);
        let sorters: Vec<Box<dyn Fn(&mut Vec<i64>)>> = vec![
            Box::new(|v| BubbleSort.sort(v)),
            Box::new(|v| HeapSort.sort(v)),
            Box::new(|v| InsertionSort::new(false).sort(v)),
            Box::new(|v| InsertionSort::new(true).sort(v)),
            Box::new(|v| Mergesort.sort(v)),
            Box::new(|v| QuickSort.sort(v)),
            Box::new(|v| SelectionSort.sort(v)),
        ];
        for sorter in sorters {
            let mut got = case.clone();
            sorter(&mut got);
            assert_eq!(got, expected);
        }
    }
}
