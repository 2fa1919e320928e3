use std::borrow::Cow;

use afsort::AFSortable;
use quickcheck::QuickCheck;

#[test]
fn sorts_strings_same_as_unstable() {
    fn compare_sort(mut strings: Vec<String>) -> bool {
        let mut copy = strings.clone();
        copy.sort_unstable();
        strings.af_sort_unstable();
        strings == copy
    }
    QuickCheck::new().tests(50000).quickcheck(compare_sort as fn(Vec<String>) -> bool);
}

#[test]
fn sorts_cow_str_same_as_unstable() {
    fn compare_sort(strings: Vec<String>) -> bool {
        let mut cows: Vec<Cow<str>> = strings.into_iter().map(Cow::Owned).collect();
        let mut copy = cows.clone();
        copy.sort_unstable();
        cows.af_sort_unstable();
        cows == copy
    }
    QuickCheck::new().tests(50000).quickcheck(compare_sort as fn(Vec<String>) -> bool);
}

#[test]
fn sorts_u8_ref_same_as_unstable() {
    fn compare_sort(nums: Vec<Vec<u8>>) -> bool {
        let mut refs: Vec<&[u8]> = nums.iter().map(|i| i.as_slice()).collect();
        let mut copy = refs.clone();
        copy.sort_unstable();
        refs.af_sort_unstable();
        refs == copy
    }
    QuickCheck::new().tests(50000).quickcheck(compare_sort as fn(Vec<Vec<u8>>) -> bool);
}

#[test]
fn sorts_u8_same_as_unstable() {
    fn compare_sort(mut nums: Vec<u8>) -> bool {
        let mut copy = nums.clone();
        copy.sort_unstable();
        nums.af_sort_unstable();
        nums == copy
    }
    QuickCheck::new().tests(50000).quickcheck(compare_sort as fn(Vec<u8>) -> bool);
}

#[test]
fn sorts_u16_same_as_unstable() {
    fn compare_sort(mut nums: Vec<u16>) -> bool {
        let mut copy = nums.clone();
        copy.sort_unstable();
        nums.af_sort_unstable();
        nums == copy
    }
    QuickCheck::new().tests(50000).quickcheck(compare_sort as fn(Vec<u16>) -> bool);
}

#[test]
fn sorts_u32_same_as_unstable() {
    fn compare_sort(mut nums: Vec<u32>) -> bool {
        let mut copy = nums.clone();
        copy.sort_unstable();
        nums.af_sort_unstable();
        nums == copy
    }
    QuickCheck::new().tests(50000).quickcheck(compare_sort as fn(Vec<u32>) -> bool);
}

#[test]
fn sorts_u64_same_as_unstable() {
    fn compare_sort(mut nums: Vec<u64>) -> bool {
        let mut copy = nums.clone();
        copy.sort_unstable();
        nums.af_sort_unstable();
        nums == copy
    }
    QuickCheck::new().tests(50000).quickcheck(compare_sort as fn(Vec<u64>) -> bool);
}

#[test]
fn sorts_tuples_same_as_unstable() {
    fn compare_sort(mut tuples: Vec<(String, u8)>) -> bool {
        let mut copy = tuples.clone();
        copy.sort_unstable_by(|t1, t2| t1.0.cmp(&t2.0));
        afsort::sort_unstable_by(&mut tuples, |t: &(String, u8)| &t.0);
        tuples.into_iter().map(|t| t.0).collect::<Vec<String>>()
            == copy.into_iter().map(|t| t.0).collect::<Vec<String>>()
    }
    QuickCheck::new().tests(50000).quickcheck(compare_sort as fn(Vec<(String, u8)>) -> bool);
}
