use tellor::claims::{newest_timestamps, oldest_timestamps, sort_timestamps};
use tellor::ids::query_id;
use tellor::query::spot_price;

fn hex(s: &str) -> Vec<u8> {
    (0..s.len()).step_by(2).map(|i| u8::from_str_radix(&s[i..i + 2], 16).unwrap()).collect()
}

#[test]
fn query_id_is_keccak_of_the_query_data() {
    let id = query_id(&spot_price("dot", "usd"));
    assert_eq!(id.to_vec(), hex("8810ffb0cfcb6131da29ed4b229f252d6bac6fc98fc4a61ffbde5b48131e0228"));
}

#[test]
fn query_id_of_empty_query_data() {
    let id = query_id(&Vec::new());
    assert_eq!(id.to_vec(), hex("c5d2460186f7233c927e7db2dcc703c0e500b653ca82273b7bfad8045d85a470"));
}

#[test]
fn sort_timestamps_keeps_every_report() {
    let sorted = sort_timestamps(&vec![30, 10, 20, 10, 40]);
    assert_eq!(sorted, vec![10, 10, 20, 30, 40]);
    assert_eq!(sort_timestamps(&Vec::new()), Vec::<u64>::new());
}

#[test]
fn oldest_timestamps_are_oldest_first() {
    let reported = vec![3_600, 7_200, 1_800, 10_800];
    assert_eq!(oldest_timestamps(&reported, 2), vec![1_800, 3_600]);
    assert_eq!(oldest_timestamps(&reported, 10), vec![1_800, 3_600, 7_200, 10_800]);
    assert_eq!(oldest_timestamps(&reported, 0), Vec::<u64>::new());
}

#[test]
fn newest_timestamps_are_newest_first() {
    let reported = vec![3_600, 7_200, 1_800, 10_800];
    assert_eq!(newest_timestamps(&reported, 2), vec![10_800, 7_200]);
    assert_eq!(newest_timestamps(&reported, 10), vec![10_800, 7_200, 3_600, 1_800]);
    assert_eq!(newest_timestamps(&Vec::new(), 3), Vec::<u64>::new());
}

#[test]
fn claimed_timestamps_were_reported() {
    let reported = vec![5, 1, 9, 1, 7];
    for count in 0..7 {
        for t in oldest_timestamps(&reported, count).into_iter().chain(newest_timestamps(&reported, count)) {
            assert!(reported.contains(&t));
        }
    }
}
