use keru_text::pow2::next_power_of_two;
use keru_text::{
    group_transform_link_bits, group_transform_next_free, ColorBrush, GroupTransformHandle,
    TextEditStyle, END_OF_FREE_LIST,
};

#[test]
fn next_power_of_two_rounds_up() {
    assert_eq!(next_power_of_two(0), 1);
    assert_eq!(next_power_of_two(1), 1);
    assert_eq!(next_power_of_two(2), 2);
    assert_eq!(next_power_of_two(3), 4);
    assert_eq!(next_power_of_two(4096), 4096);
    assert_eq!(next_power_of_two(4097), 8192);
    assert_eq!(next_power_of_two(0x8000_0000), 0x8000_0000);
}

#[test]
fn free_link_bits_round_trip() {
    assert_eq!(group_transform_link_bits(None), END_OF_FREE_LIST);
    assert_eq!(group_transform_link_bits(Some(5)), 5);
    assert_eq!(group_transform_next_free(END_OF_FREE_LIST), None);
    assert_eq!(group_transform_next_free(5), Some(5));
    for link in [None, Some(0), Some(17), Some(0xffff_fffe)] {
        assert_eq!(group_transform_next_free(group_transform_link_bits(link)), link);
    }
}

#[test]
fn text_edit_style_default_colors() {
    let style = TextEditStyle::default();
    assert_eq!(style.disabled_text_color, ColorBrush([128, 128, 128, 255]));
    assert_eq!(style.placeholder_text_color, ColorBrush([70, 70, 70, 255]));
}

#[test]
fn identity_handle_is_the_first_slot() {
    assert_eq!(GroupTransformHandle::identity(), GroupTransformHandle::identity());
}
