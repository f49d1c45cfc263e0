use cache_aware_routing::bitmap::{HostBitmap, MAX_PODS};

fn bitmap_of(pods: &[usize]) -> HostBitmap {
    let mut bitmap = HostBitmap::empty();
    for pod in pods {
        bitmap.set(*pod);
    }
    bitmap
}

#[test]
fn empty_bitmap_has_no_pods() {
    let bitmap = HostBitmap::empty();
    assert!(bitmap.is_empty());
    assert_eq!(bitmap.count_ones(), 0);
    assert!(bitmap.iter_set_bits().is_empty());
    for pod in 0..MAX_PODS {
        assert!(!bitmap.contains(pod));
    }
}

#[test]
fn every_pod_can_be_set_and_cleared_by_itself() {
    for pod in 0..MAX_PODS {
        let mut bitmap = HostBitmap::empty();
        bitmap.set(pod);
        assert_eq!(bitmap.iter_set_bits(), vec![pod]);
        assert_eq!(bitmap.count_ones(), 1);
        assert!(!bitmap.is_empty());
        bitmap.clear(pod);
        assert_eq!(bitmap, HostBitmap::empty());
    }
}

#[test]
fn pods_without_a_place_are_ignored() {
    let mut bitmap = bitmap_of(&[3]);
    bitmap.set(MAX_PODS);
    bitmap.set(usize::MAX);
    assert_eq!(bitmap.iter_set_bits(), vec![3]);
    bitmap.clear(MAX_PODS + 3);
    assert_eq!(bitmap.iter_set_bits(), vec![3]);
    assert!(!bitmap.contains(MAX_PODS));
    assert!(!bitmap.contains(usize::MAX));
}

#[test]
fn full_bitmap_stops_at_its_size() {
    assert!(HostBitmap::full_for_count(0).is_empty());
    assert_eq!(HostBitmap::full_for_count(3).iter_set_bits(), vec![0, 1, 2]);
    assert_eq!(HostBitmap::full_for_count(64).count_ones(), 64);
    assert_eq!(HostBitmap::full_for_count(65).count_ones(), 65);
    assert_eq!(HostBitmap::full_for_count(256).count_ones(), 256);
    assert_eq!(
        HostBitmap::full_for_count(1000),
        HostBitmap::full_for_count(256)
    );
}

#[test]
fn set_operations_work_across_words() {
    let evens: Vec<usize> = (0..MAX_PODS).filter(|pod| pod % 2 == 0).collect();
    let thirds: Vec<usize> = (0..MAX_PODS).filter(|pod| pod % 3 == 0).collect();
    let a = bitmap_of(&evens);
    let b = bitmap_of(&thirds);
    let both: Vec<usize> = (0..MAX_PODS).filter(|pod| pod % 6 == 0).collect();
    let either: Vec<usize> = (0..MAX_PODS)
        .filter(|pod| pod % 2 == 0 || pod % 3 == 0)
        .collect();
    let first_only: Vec<usize> = (0..MAX_PODS)
        .filter(|pod| pod % 2 == 0 && pod % 3 != 0)
        .collect();
    assert_eq!(a.and(b).iter_set_bits(), both);
    assert_eq!(a.or(b).iter_set_bits(), either);
    assert_eq!(a.minus(b).iter_set_bits(), first_only);
    assert_eq!(a.and(b).count_ones() + a.minus(b).count_ones(), a.count_ones());
}

#[test]
fn closures_see_the_pods_in_ascending_order() {
    let bitmap = bitmap_of(&[200, 5, 63, 64, 0]);
    let mut seen = Vec::new();
    bitmap.for_each_set_bit(|pod: usize| seen.push(pod));
    assert_eq!(seen, vec![0, 5, 63, 64, 200]);

    let mut sum = 0;
    bitmap.for_each_set_bit(|pod: usize| sum += pod);
    assert_eq!(sum, 332);
}

#[test]
fn bitmaps_with_the_same_pods_are_equal() {
    let mut a = bitmap_of(&[1, 100]);
    let b = bitmap_of(&[100, 1]);
    assert_eq!(a, b);
    a.set(2);
    assert_ne!(a, b);
    a.clear(2);
    assert_eq!(a, b);
}

#[test]
fn bitmap_is_four_words() {
    assert_eq!(std::mem::size_of::<HostBitmap>(), 32);
}
