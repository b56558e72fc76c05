use ctrlsys::pool::link::{SystemIn, SystemLink, SystemMux, SystemOut, SystemRef};
use ctrlsys::pool::{try_link, has_unique_elements, incoming_links, link, max_inputs};

fn l(from: usize, to: usize) -> SystemLink {
    SystemLink { from_system_idx: from, to_system_idx: to, to_input_offset: 0, num_bytes: 8 }
}

#[test]
fn unique_elements_are_detected() {
    assert!(has_unique_elements(&[1, 2, 3]));
    assert!(!has_unique_elements(&[1, 2, 1]));
    assert!(has_unique_elements(&[]));
}

#[test]
fn system_ref_names_one_producer_of_its_output_size() {
    let r: SystemRef<(), f64> = SystemRef::new(4);
    assert_eq!(r.id(), 4);
    assert_eq!(r.ids(), &[4]);
    let layouts = r.layouts();
    assert_eq!(layouts.len(), 1);
    assert_eq!(layouts[0].offset, 0);
    assert_eq!(layouts[0].len, 8);
}

#[test]
fn system_ref_adds_one_link() {
    let r: SystemRef<(), u32> = SystemRef::new(2);
    let mut links = vec![l(0, 1)];
    r.add_links_to(5, 16, &mut links);
    assert_eq!(links.len(), 2);
    assert_eq!(links[1].from_system_idx, 2);
    assert_eq!(links[1].to_system_idx, 5);
    assert_eq!(links[1].to_input_offset, 16);
    assert_eq!(links[1].num_bytes, 4);
}

#[test]
fn pair_mux_chains_ids_and_shifts_layouts() {
    let a: SystemRef<(), f64> = SystemRef::new(1);
    let b: SystemRef<(), f64> = SystemRef::new(0);
    let mux: SystemMux<(f64, f64)> = SystemMux::from_pair(&a, &b, 0, 8);
    assert_eq!(mux.ids(), &[1, 0]);
    let layouts = mux.layouts();
    assert_eq!((layouts[0].offset, layouts[0].len), (0, 8));
    assert_eq!((layouts[1].offset, layouts[1].len), (8, 8));
}

#[test]
fn triple_mux_names_all_three_producers() {
    let a: SystemRef<(), u8> = SystemRef::new(7);
    let b: SystemRef<(), u16> = SystemRef::new(8);
    let c: SystemRef<(), u32> = SystemRef::new(9);
    let mux: SystemMux<(u8, u16, u32)> = SystemMux::from_triple(&a, &b, &c, 6, 4, 0);
    assert_eq!(mux.ids(), &[7, 8, 9]);
    let layouts = mux.layouts();
    assert_eq!(layouts.len(), 3);
    assert_eq!((layouts[0].offset, layouts[0].len), (6, 1));
    assert_eq!((layouts[1].offset, layouts[1].len), (4, 2));
    assert_eq!((layouts[2].offset, layouts[2].len), (0, 4));
}

#[test]
fn linking_a_mux_adds_one_link_per_producer_in_order() {
    let a: SystemRef<(), f64> = SystemRef::new(1);
    let b: SystemRef<(), f64> = SystemRef::new(0);
    let mux: SystemMux<(f64, f64)> = SystemMux::from_pair(&a, &b, 0, 8);
    let mut links = Vec::new();
    link(&mut links, &mux, 2);
    assert_eq!(links.len(), 2);
    assert_eq!((links[0].from_system_idx, links[0].to_system_idx, links[0].to_input_offset), (1, 2, 0));
    assert_eq!((links[1].from_system_idx, links[1].to_system_idx, links[1].to_input_offset), (0, 2, 8));
    for link in &links {
        assert_ne!(link.from_system_idx, link.to_system_idx);
    }
}

#[test]
fn linking_a_single_producer() {
    let a: SystemRef<(), f64> = SystemRef::new(3);
    let mut links = vec![l(0, 1)];
    link(&mut links, &SystemMux::from_ref(a), 1);
    assert_eq!(links.len(), 2);
    assert_eq!((links[0].from_system_idx, links[0].to_system_idx), (0, 1));
    assert_eq!((links[1].from_system_idx, links[1].to_system_idx, links[1].num_bytes), (3, 1, 8));
}

#[test]
fn incoming_links_are_grouped_by_target_in_order() {
    let groups = incoming_links(3, &vec![l(0, 2), l(1, 2), l(0, 1)]);
    assert_eq!(groups.len(), 3);
    assert!(groups[0].is_empty());
    assert_eq!(groups[1].len(), 1);
    assert_eq!(groups[1][0].from_system_idx, 0);
    assert_eq!(groups[2].len(), 2);
    assert_eq!((groups[2][0].from_system_idx, groups[2][1].from_system_idx), (0, 1));
}

#[test]
fn max_inputs_is_the_largest_group() {
    assert_eq!(max_inputs(&Vec::new()), None);
    let groups = incoming_links(3, &vec![l(0, 2), l(1, 2), l(0, 1)]);
    assert_eq!(max_inputs(&groups), Some(2));
    assert_eq!(max_inputs(&vec![Vec::new(), Vec::new()]), Some(0));
}

#[test]
fn try_link_refuses_a_repeated_producer_and_leaves_links_alone() {
    let a: SystemRef<(), f64> = SystemRef::new(1);
    let mux: SystemMux<(f64, f64)> = SystemMux::from_pair(&a, &a, 0, 8);
    let mut links = vec![l(0, 2)];
    assert!(!try_link(&mut links, &mux, 2));
    assert_eq!(links.len(), 1);
}

#[test]
fn try_link_refuses_a_self_feed_and_accepts_otherwise() {
    let a: SystemRef<(), f64> = SystemRef::new(1);
    let mut links = Vec::new();
    assert!(!try_link(&mut links, &SystemMux::from_ref(a), 1));
    assert!(links.is_empty());
    assert!(try_link(&mut links, &SystemMux::from_ref(a), 0));
    assert_eq!((links[0].from_system_idx, links[0].to_system_idx), (1, 0));
}
