use viewtree::change::Change;
use viewtree::flexalg::run_distribute;
use viewtree::geom::{cadd, clamp_dim, csub, Axis, Constraint, Constraints, Rgba, Size, MAX_DIM};
use viewtree::tree::Tree;
use viewtree::ui::{col, data_eq, label, row, split, ui_check, NodeData, Ui};

fn leaf(min: i64, ideal: i64, max: i64) -> Ui {
    Ui::Spacer {
        min: Size { w: min, h: 100 },
        ideal: Size { w: ideal, h: 100 },
        max: Size { w: max, h: 100 },
    }
}

#[test]
fn change_mask_accumulates_and_clears() {
    let mut c = Change::none();
    assert!(!c.contains(Change::view_bit()));
    assert!(!c.contains(Change::none()));
    c.add(Change::view_bit());
    assert!(c.contains(Change::view_bit()));
    assert!(!c.contains(Change::size_bit()));
    c.add(Change::size_bit());
    assert!(c.contains(Change::size_bit()));
    assert!(c.contains(Change::state_bit()) == false);
    c.clear();
    assert!(!c.contains(Change::view_bit()));
    assert!(!c.contains(Change::size_bit()));
}

#[test]
fn clamping_keeps_dimensions_in_range() {
    assert_eq!(clamp_dim(-5), 0);
    assert_eq!(clamp_dim(50), 50);
    assert_eq!(clamp_dim(MAX_DIM + 7), MAX_DIM);
    assert_eq!(cadd(MAX_DIM - 1, 5), MAX_DIM);
    assert_eq!(cadd(20, 22), 42);
    assert_eq!(csub(10, 25), 0);
    assert_eq!(csub(25, 10), 15);
}

#[test]
fn constraints_axis_access() {
    let c = Constraints { width: Constraint::Fixed(100), height: Constraint::Ideal };
    assert_eq!(c.axis(Axis::Horizontal), Constraint::Fixed(100));
    assert_eq!(c.axis(Axis::Vertical), Constraint::Ideal);
    let c2 = c.with_axis(Axis::Vertical, Constraint::Min);
    assert_eq!(c2.width, Constraint::Fixed(100));
    assert_eq!(c2.height, Constraint::Min);
}

#[test]
fn builders_shape_the_description() {
    let r = row(vec![leaf(0, 100, 200)]).spacing(25);
    match &r {
        Ui::Flex { axis, spacing, content } => {
            assert_eq!(*axis, Axis::Horizontal);
            assert_eq!(*spacing, 25);
            assert_eq!(content.len(), 1);
        },
        _ => panic!("row must build a flex"),
    }
    let c = col(vec![]);
    match &c {
        Ui::Flex { axis, .. } => assert_eq!(*axis, Axis::Vertical),
        _ => panic!("col must build a flex"),
    }
    let l = label(b"hi".to_vec()).size(1400).color(Rgba { r: 1, g: 2, b: 3, a: 255 });
    match &l {
        Ui::Label { text, em, color } => {
            assert_eq!(text, b"hi");
            assert_eq!(*em, 1400);
            assert_eq!(*color, Rgba { r: 1, g: 2, b: 3, a: 255 });
        },
        _ => panic!("label must build a label"),
    }
    assert!(ui_check(&r));
    assert!(ui_check(&l));
    assert!(!ui_check(&label(b"x".to_vec()).size(0)));
}

#[test]
fn padding_and_background_wrap() {
    let v = leaf(0, 10, 20).padding_all(5).background(Rgba { r: 9, g: 9, b: 9, a: 255 });
    match v {
        Ui::Background { inner, .. } => match *inner {
            Ui::Padding { start, end, top, bottom, .. } => {
                assert_eq!((start, end, top, bottom), (5, 5, 5, 5));
            },
            _ => panic!("padding expected"),
        },
        _ => panic!("background expected"),
    }
}

#[test]
fn split_exposes_attributes_and_children() {
    let (d, kids) = split(row(vec![leaf(0, 10, 20), leaf(0, 30, 40)]));
    match d {
        NodeData::Flex { axis, spacing } => {
            assert_eq!(axis, Axis::Horizontal);
            assert_eq!(spacing, 0);
        },
        _ => panic!("flex data expected"),
    }
    assert_eq!(kids.len(), 2);
    let (d1, k1) = split(label(b"abc".to_vec()));
    assert!(k1.is_empty());
    let (d2, _) = split(label(b"abc".to_vec()));
    assert!(data_eq(&d1, &d2));
    let (d3, _) = split(label(b"abd".to_vec()));
    assert!(!data_eq(&d1, &d3));
}

#[test]
fn tree_nodes_and_masks() {
    let (d, _) = split(label(b"root".to_vec()));
    let mut t = Tree::new(d);
    assert!(t.is_used(0));
    assert!(!t.is_used(1));
    assert!(!t.change_at(0).contains(Change::view_bit()));
    t.mark(0, Change::state_bit());
    assert!(t.change_at(0).contains(Change::state_bit()));
    let (d2, _) = split(leaf(0, 1, 2));
    let id = t.insert(0, d2);
    assert_eq!(id, 1);
    assert!(t.is_used(1));
    assert!(t.change_at(1).contains(Change::view_bit()));
    t.reset();
    assert!(!t.change_at(0).contains(Change::state_bit()));
    assert!(!t.change_at(1).contains(Change::view_bit()));
}

// Flex conservation, grow case: natural main sizes [50, 30, 20] units,
// container fixed at 200 units, each child may grow by 34 units: the
// leftover of 100 units is fully distributed.
#[test]
fn flex_distribution_grow_conserves_space() {
    let mut sizes: Vec<i64> = vec![5000, 3000, 2000];
    let mut caps: Vec<i64> = vec![3400, 3400, 3400];
    let leftover = run_distribute(&mut sizes, &mut caps, 10000);
    assert_eq!(leftover, 0);
    assert_eq!(sizes.iter().sum::<i64>(), 20000);
    assert_eq!(sizes, vec![8333, 6333, 5334]);
}

// Flex conservation, shrink case: min sizes [40, 20, 10] units; no child
// falls below its probed minimum even though the deficit is larger than
// the total shrink capacity.
#[test]
fn flex_distribution_shrink_respects_minimums() {
    let mut sizes: Vec<i64> = vec![5000, 3000, 2000];
    let mut caps: Vec<i64> = vec![-1000, -1000, -1000];
    let leftover = run_distribute(&mut sizes, &mut caps, -4000);
    assert_eq!(sizes, vec![4000, 2000, 1000]);
    assert_eq!(leftover, -1000);
}

// Epsilon stability: a leftover within one hundredth of a unit triggers
// no redistribution at all.
#[test]
fn flex_distribution_epsilon_is_stable() {
    let mut sizes: Vec<i64> = vec![5000, 3000];
    let mut caps: Vec<i64> = vec![2000, 2000];
    assert_eq!(run_distribute(&mut sizes, &mut caps, 1), 1);
    assert_eq!(sizes, vec![5000, 3000]);
    assert_eq!(run_distribute(&mut sizes, &mut caps, -1), -1);
    assert_eq!(sizes, vec![5000, 3000]);
    assert_eq!(run_distribute(&mut sizes, &mut caps, 0), 0);
    assert_eq!(sizes, vec![5000, 3000]);
}

// An uneven leftover is spread with countdown shares: the last flexible
// child absorbs the remainder of the integer division.
#[test]
fn flex_distribution_uneven_shares() {
    let mut sizes: Vec<i64> = vec![0, 0, 0];
    let mut caps: Vec<i64> = vec![100, 100, 100];
    let leftover = run_distribute(&mut sizes, &mut caps, 100);
    assert_eq!(leftover, 0);
    assert_eq!(sizes, vec![33, 33, 34]);
}

// Epsilon stability also leaves every capacity untouched: nothing is
// consumed when nothing is redistributed.
#[test]
fn flex_distribution_epsilon_consumes_no_capacity() {
    let mut sizes: Vec<i64> = vec![5000, 3000];
    let mut caps: Vec<i64> = vec![2000, -2000];
    assert_eq!(run_distribute(&mut sizes, &mut caps, 1), 1);
    assert_eq!(caps, vec![2000, -2000]);
    assert_eq!(sizes, vec![5000, 3000]);
}
