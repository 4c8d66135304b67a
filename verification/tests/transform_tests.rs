use lumos::transform::Transform;

fn table() -> Transform {
    Transform::new(vec![-5, 20, 300, 700, 1100, 7100]).unwrap()
}

#[test]
fn sample_at_threshold_lands_on_bucket_boundary() {
    let t = table();
    // 300 is the threshold of index 2 in a five-bucket table: 2/5 of scale.
    assert_eq!(t.to_backlight(300), 400);
}

#[test]
fn sample_below_table_is_minimum() {
    let t = table();
    assert_eq!(t.to_backlight(-10), 0);
}

#[test]
fn sample_above_table_is_maximum() {
    let t = table();
    assert_eq!(t.to_backlight(8000), 1000);
}

#[test]
fn sample_inside_bucket_interpolates() {
    let t = table();
    // 160 is the midpoint of the bucket [20, 300), whose boundaries map
    // to 200 and 400 thousandths: halfway is 300.
    assert_eq!(t.to_backlight(160), 300);
}

#[test]
fn every_threshold_lands_on_its_boundary() {
    let t = table();
    assert_eq!(t.to_backlight(-5), 0);
    assert_eq!(t.to_backlight(20), 200);
    assert_eq!(t.to_backlight(700), 600);
    assert_eq!(t.to_backlight(1100), 800);
    assert_eq!(t.to_backlight(7100), 1000);
}

#[test]
fn output_is_monotone_and_in_range_over_a_sweep() {
    let t = table();
    let mut prev = 0;
    let mut s = -100;
    while s <= 7300 {
        let v = t.to_backlight(s);
        assert!(v <= 1000);
        assert!(v >= prev);
        prev = v;
        s += 7;
    }
}

#[test]
fn short_table_is_rejected() {
    assert!(Transform::new(vec![]).is_none());
    assert!(Transform::new(vec![5]).is_none());
}

#[test]
fn non_increasing_table_is_rejected() {
    assert!(Transform::new(vec![1, 1]).is_none());
    assert!(Transform::new(vec![0, 10, 5]).is_none());
    assert!(Transform::new(vec![3, 2, 1]).is_none());
}

#[test]
fn default_table_is_valid() {
    let d = Transform::default_table();
    assert_eq!(d, vec![-5, 20, 300, 700, 1100, 7100]);
    assert!(Transform::new(d).is_some());
}
