use keru_text::gpu_slab::{GpuSlab, GpuSlabItem, SlabUpload};

#[derive(Clone, Copy, Debug, PartialEq)]
struct Item {
    value: u32,
    link: u32,
}

impl GpuSlabItem for Item {
    fn free_link(&self) -> Option<usize> {
        self.next_free()
    }
    fn next_free(&self) -> Option<usize> {
        if self.link == u32::MAX {
            None
        } else {
            Some(self.link as usize)
        }
    }
    fn with_free_link(self, link: Option<usize>) -> Self {
        let mut item = self;
        item.set_next_free(link);
        item
    }
    fn set_next_free(&mut self, i: Option<usize>) {
        self.link = match i {
            Some(i) => i as u32,
            None => u32::MAX,
        };
    }
}

fn item(value: u32) -> Item {
    Item { value, link: 7 }
}

#[test]
fn insert_appends_when_no_slot_is_free() {
    let mut slab = GpuSlab::with_capacity(4);
    assert_eq!(slab.insert(item(1)), 0);
    assert_eq!(slab.insert(item(2)), 1);
    assert_eq!(slab.insert(item(3)), 2);
    assert_eq!(slab.len(), 3);
    assert_eq!(slab.index(1).value, 2);
}

#[test]
fn insert_reuses_the_slot_removed_last() {
    let mut slab = GpuSlab::with_capacity(4);
    let a = slab.insert(item(1));
    let b = slab.insert(item(2));
    let c = slab.insert(item(3));
    slab.remove(a);
    slab.remove(c);
    assert_eq!(slab.insert(item(4)), c);
    assert_eq!(slab.insert(item(5)), a);
    assert_eq!(slab.insert(item(6)), 3);
    assert_eq!(slab.index(b).value, 2);
    assert_eq!(slab.index(a).value, 5);
    assert_eq!(slab.index(c).value, 4);
    assert_eq!(slab.len(), 4);
}

#[test]
fn removed_items_hold_the_free_list() {
    let mut slab = GpuSlab::with_capacity(4);
    for v in 0..3 {
        slab.insert(item(v));
    }
    slab.remove(0);
    slab.remove(2);
    let all = slab.as_slice();
    assert_eq!(all.len(), 3);
    // Slot 2 is the head and links to slot 0, which ends the list.
    assert_eq!(all[2].next_free(), Some(0));
    assert_eq!(all[0].next_free(), None);
    assert_eq!(all[1], item(1));
}

#[test]
fn get_mut_and_index_mut_write_through() {
    let mut slab = GpuSlab::with_capacity(2);
    let a = slab.insert(item(1));
    slab.get_mut(a).value = 10;
    assert_eq!(slab.index(a).value, 10);
    slab.index_mut(a).value = 11;
    assert_eq!(slab.as_slice()[0].value, 11);
}

#[test]
fn clear_empties_the_slab() {
    let mut slab = GpuSlab::with_capacity(2);
    slab.insert(item(1));
    slab.insert(item(2));
    slab.remove(1);
    slab.clear();
    assert_eq!(slab.len(), 0);
    assert_eq!(slab.insert(item(3)), 0);
}

#[test]
fn first_upload_makes_a_buffer() {
    let mut slab: GpuSlab<Item> = GpuSlab::with_capacity(8);
    assert_eq!(
        slab.load_to_gpu(),
        Some(SlabUpload { new_buffer_capacity: Some(1), write_len: 0 })
    );
    assert_eq!(slab.load_to_gpu(), None);
}

#[test]
fn upload_grows_to_the_next_power_of_two() {
    let mut slab = GpuSlab::with_capacity(8);
    for v in 0..5 {
        slab.insert(item(v));
    }
    assert_eq!(
        slab.load_to_gpu(),
        Some(SlabUpload { new_buffer_capacity: Some(8), write_len: 5 })
    );
    // Nothing changed: nothing to do.
    assert_eq!(slab.load_to_gpu(), None);
    // A change that still fits: write only.
    slab.remove(4);
    assert_eq!(
        slab.load_to_gpu(),
        Some(SlabUpload { new_buffer_capacity: None, write_len: 5 })
    );
    for v in 0..5 {
        slab.insert(item(v));
    }
    assert_eq!(slab.len(), 9);
    assert_eq!(
        slab.load_to_gpu(),
        Some(SlabUpload { new_buffer_capacity: Some(16), write_len: 9 })
    );
}

#[test]
fn slab_with_buffer_starts_clean() {
    let mut slab: GpuSlab<Item> = GpuSlab::new(4);
    assert_eq!(slab.load_to_gpu(), None);
    slab.insert(item(1));
    assert_eq!(
        slab.load_to_gpu(),
        Some(SlabUpload { new_buffer_capacity: None, write_len: 1 })
    );
    for v in 0..4 {
        slab.insert(item(v));
    }
    assert_eq!(
        slab.load_to_gpu(),
        Some(SlabUpload { new_buffer_capacity: Some(8), write_len: 5 })
    );
}

#[test]
fn remove_changes_only_the_link_of_the_slot() {
    let mut slab = GpuSlab::with_capacity(4);
    for v in 0..3 {
        slab.insert(item(v + 40));
    }
    slab.remove(1);
    let all = slab.as_slice();
    assert_eq!(all[1].value, 41);
    assert_eq!(all[1].next_free(), None);
    assert_eq!(all[0], item(40));
    assert_eq!(all[2], item(42));
}

#[test]
fn get_mut_reaches_a_free_slot_below_len() {
    let mut slab = GpuSlab::with_capacity(4);
    slab.insert(item(1));
    slab.insert(item(2));
    slab.remove(0);
    // The free slot keeps its link while its value is rewritten.
    slab.get_mut(0).value = 99;
    assert_eq!(slab.index(0).value, 99);
    assert_eq!(slab.index(0).next_free(), None);
    assert_eq!(slab.insert(item(3)), 0);
    assert_eq!(slab.index(0).value, 3);
}

#[test]
fn length_counts_the_indices_handed_out() {
    let mut slab = GpuSlab::with_capacity(1);
    let mut seen = Vec::new();
    for v in 0..4 {
        let i = slab.insert(item(v));
        if !seen.contains(&i) {
            seen.push(i);
        }
    }
    slab.remove(2);
    slab.remove(0);
    assert_eq!(slab.len(), seen.len());
    let i = slab.insert(item(9));
    assert!(seen.contains(&i));
    assert_eq!(slab.len(), 4);
    let plan = slab.load_to_gpu().unwrap();
    assert!(plan.new_buffer_capacity.unwrap() >= slab.len());
}
